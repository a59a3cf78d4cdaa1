//! Per-function accumulation: every finished call of a profiled function
//! is folded into that function's record, and the records are summarised
//! when the session is collected.
//!
//! Counters add as the profiler's counters do in an optimised build: they
//! wrap around rather than stop. The floating-point statistics (mean,
//! deviation, percentiles) are derived by the caller from the integer
//! fields and the sample reservoir kept here.

use vstd::prelude::*;
use vstd::string::StringExecFns;
use crate::memory::{AllocSnapshot, sat_sub, entry_level, wrap_add, add_wrapping};
use crate::calltree::CallTreeNode;
use crate::order::{is_desc_order, order_desc};

verus! {

/// At most this many call durations are kept for percentiles.
pub const MAX_RESERVOIR: usize = 10000;

/// Running timing totals of one function.
pub struct TimingAccumulator {
    pub count: u64,
    pub total_ns: u64,
    pub self_ns: u64,
    /// Shortest call; `u64::MAX` before the first call.
    pub min_ns: u64,
    pub max_ns: u64,
    /// A sample of call durations.
    pub reservoir: Vec<u64>,
}

/// The reservoir slot that the `count`-th call overwrites once the
/// reservoir is full: a multiplicative pick, wrapped to 64 bits.
pub open spec fn reservoir_slot(count: u64) -> int {
    ((count as nat * 6364136223nat) % 0x1_0000_0000_0000_0000nat) as int % (MAX_RESERVOIR as int)
}

/// The reservoir after a call of `total_ns`, this call being the
/// `count`-th.
pub open spec fn reservoir_after(r: Seq<u64>, count: u64, total_ns: u64) -> Seq<u64> {
    if r.len() < MAX_RESERVOIR {
        r.push(total_ns)
    } else {
        r.update(reservoir_slot(count), total_ns)
    }
}

/// `b` is `a` after one more call with inclusive time `total_ns` and self
/// time `self_ns`.
pub open spec fn recorded(a: TimingAccumulator, b: TimingAccumulator, total_ns: u64, self_ns: u64) -> bool {
    &&& b.count == wrap_add(a.count, 1)
    &&& b.total_ns == wrap_add(a.total_ns, total_ns)
    &&& b.self_ns == wrap_add(a.self_ns, self_ns)
    &&& b.min_ns == (if total_ns < a.min_ns {
        total_ns
    } else {
        a.min_ns
    })
    &&& b.max_ns == (if total_ns > a.max_ns {
        total_ns
    } else {
        a.max_ns
    })
    &&& b.reservoir@ == reservoir_after(a.reservoir@, b.count, total_ns)
}

/// `t` has seen no call.
pub open spec fn fresh_timing(t: TimingAccumulator) -> bool {
    &&& t.count == 0 && t.total_ns == 0 && t.self_ns == 0
    &&& t.min_ns == u64::MAX && t.max_ns == 0
    &&& t.reservoir@.len() == 0
}

/// `s` holds the values of `r` in ascending order: `r` read backwards
/// along the stable order of its positions by descending value.
pub open spec fn sorted_of(r: Seq<u64>, s: Seq<u64>) -> bool {
    &&& s.len() == r.len()
    &&& exists|o: Seq<usize>|
        #[trigger] is_desc_order(r, o) && forall|i: int|
            0 <= i < s.len() ==> #[trigger] s[i] == r[o[s.len() - 1 - i] as int]
}

impl TimingAccumulator {
    /// The reservoir is bounded, and holds durations of recorded calls, so
    /// each lies between the shortest and the longest call.
    pub open spec fn wf(&self) -> bool {
        &&& self.reservoir@.len() <= MAX_RESERVOIR
        &&& forall|i: int|
            0 <= i < self.reservoir@.len() ==> self.min_ns <= #[trigger] self.reservoir@[i]
                <= self.max_ns
    }

    /// No call yet.
    pub fn new() -> (t: Self)
        ensures
            t.wf(),
            t.count == 0 && t.total_ns == 0 && t.self_ns == 0,
            t.min_ns == u64::MAX && t.max_ns == 0,
            t.reservoir@.len() == 0,
    {
        TimingAccumulator {
            count: 0,
            total_ns: 0,
            self_ns: 0,
            min_ns: u64::MAX,
            max_ns: 0,
            reservoir: Vec::new(),
        }
    }

    /// Records one call with inclusive time `total_ns` and self time
    /// `self_ns`.
    pub fn record(&mut self, total_ns: u64, self_ns: u64)
        requires
            old(self).wf(),
        ensures
            final(self).wf(),
            final(self).count == wrap_add(old(self).count, 1),
            final(self).total_ns == wrap_add(old(self).total_ns, total_ns),
            final(self).self_ns == wrap_add(old(self).self_ns, self_ns),
            final(self).min_ns == (if total_ns < old(self).min_ns {
                total_ns
            } else {
                old(self).min_ns
            }),
            final(self).max_ns == (if total_ns > old(self).max_ns {
                total_ns
            } else {
                old(self).max_ns
            }),
            final(self).reservoir@ == reservoir_after(
                old(self).reservoir@,
                final(self).count,
                total_ns,
            ),
    {
        self.count = add_wrapping(self.count, 1);
        self.total_ns = add_wrapping(self.total_ns, total_ns);
        self.self_ns = add_wrapping(self.self_ns, self_ns);
        if total_ns < self.min_ns {
            self.min_ns = total_ns;
        }
        if total_ns > self.max_ns {
            self.max_ns = total_ns;
        }
        let ghost before = self.reservoir@;
        if self.reservoir.len() < MAX_RESERVOIR {
            self.reservoir.push(total_ns);
            assert forall|i: int| 0 <= i < self.reservoir@.len() implies self.min_ns
                <= #[trigger] self.reservoir@[i] <= self.max_ns by {
                if i < before.len() {
                    assert(self.reservoir@[i] == before[i]);
                }
            }
        } else {
            let idx: u64 = self.count.wrapping_mul(6364136223) % 10000;
            self.reservoir.set(idx as usize, total_ns);
            assert forall|i: int| 0 <= i < self.reservoir@.len() implies self.min_ns
                <= #[trigger] self.reservoir@[i] <= self.max_ns by {
                if i != idx as int {
                    assert(self.reservoir@[i] == before[i]);
                }
            }
        }
    }

    /// Mean call time in whole nanoseconds (zero before the first call).
    pub fn avg_ns(&self) -> (r: u64)
        ensures
            self.count > 0 ==> r == self.total_ns / self.count,
            self.count == 0 ==> r == 0,
    {
        if self.count > 0 {
            self.total_ns / self.count
        } else {
            0
        }
    }

    /// The sampled call durations in ascending order, from which the
    /// percentiles are read.
    pub fn sorted_reservoir(&self) -> (s: Vec<u64>)
        ensures
            sorted_of(self.reservoir@, s@),
            forall|i: int, j: int| 0 <= i <= j < s@.len() ==> s@[i] <= s@[j],
    {
        let order = order_desc(&self.reservoir);
        let n = order.len();
        let mut s: Vec<u64> = Vec::new();
        let mut k: usize = 0;
        while k < n
            invariant
                n == order@.len(),
                is_desc_order(self.reservoir@, order@),
                k <= n,
                s@.len() == k,
                forall|i: int| 0 <= i < k ==> #[trigger] s@[i] == self.reservoir@[order@[n - 1 - i] as int],
            decreases n - k,
        {
            let v = self.reservoir[order[n - 1 - k]];
            s.push(v);
            k = k + 1;
        }
        proof {
            let r = self.reservoir@;
            let o = order@;
            assert forall|i: int, j: int| 0 <= i <= j < s@.len() implies s@[i] <= s@[j] by {
                if i < j {
                    assert(crate::order::goes_before(r, o[n - 1 - j] as int, o[n - 1 - i] as int));
                }
            }
            assert(is_desc_order(r, o));
        }
        s
    }

    /// Shortest call, or zero before the first call.
    pub fn min_or_zero(&self) -> (r: u64)
        ensures
            r == (if self.min_ns == u64::MAX {
                0
            } else {
                self.min_ns
            }),
    {
        if self.min_ns == u64::MAX {
            0
        } else {
            self.min_ns
        }
    }
}

/// Hardware counter totals.
#[derive(Clone, Copy, PartialEq, Eq, Structural, Debug)]
pub struct CpuTotals {
    pub cpu_cycles: u64,
    pub instructions: u64,
    pub cache_references: u64,
    pub cache_misses: u64,
    pub l1_dcache_loads: u64,
    pub l1_dcache_load_misses: u64,
    pub llc_loads: u64,
    pub llc_load_misses: u64,
    pub branch_instructions: u64,
    pub branch_misses: u64,
    pub context_switches: u64,
    pub page_faults: u64,
    pub cpu_migrations: u64,
}

/// All counters zero.
pub open spec fn cpu_zero() -> CpuTotals {
    CpuTotals {
        cpu_cycles: 0,
        instructions: 0,
        cache_references: 0,
        cache_misses: 0,
        l1_dcache_loads: 0,
        l1_dcache_load_misses: 0,
        llc_loads: 0,
        llc_load_misses: 0,
        branch_instructions: 0,
        branch_misses: 0,
        context_switches: 0,
        page_faults: 0,
        cpu_migrations: 0,
    }
}

/// Counter-by-counter sum.
pub open spec fn cpu_sum(a: CpuTotals, b: CpuTotals) -> CpuTotals {
    CpuTotals {
        cpu_cycles: wrap_add(a.cpu_cycles, b.cpu_cycles),
        instructions: wrap_add(a.instructions, b.instructions),
        cache_references: wrap_add(a.cache_references, b.cache_references),
        cache_misses: wrap_add(a.cache_misses, b.cache_misses),
        l1_dcache_loads: wrap_add(a.l1_dcache_loads, b.l1_dcache_loads),
        l1_dcache_load_misses: wrap_add(a.l1_dcache_load_misses, b.l1_dcache_load_misses),
        llc_loads: wrap_add(a.llc_loads, b.llc_loads),
        llc_load_misses: wrap_add(a.llc_load_misses, b.llc_load_misses),
        branch_instructions: wrap_add(a.branch_instructions, b.branch_instructions),
        branch_misses: wrap_add(a.branch_misses, b.branch_misses),
        context_switches: wrap_add(a.context_switches, b.context_switches),
        page_faults: wrap_add(a.page_faults, b.page_faults),
        cpu_migrations: wrap_add(a.cpu_migrations, b.cpu_migrations),
    }
}

impl CpuTotals {
    /// All counters zero.
    pub fn zero() -> (c: Self)
        ensures
            c == cpu_zero(),
    {
        CpuTotals {
            cpu_cycles: 0,
            instructions: 0,
            cache_references: 0,
            cache_misses: 0,
            l1_dcache_loads: 0,
            l1_dcache_load_misses: 0,
            llc_loads: 0,
            llc_load_misses: 0,
            branch_instructions: 0,
            branch_misses: 0,
            context_switches: 0,
            page_faults: 0,
            cpu_migrations: 0,
        }
    }

    /// Adds `other` counter by counter.
    pub fn add(&self, other: &CpuTotals) -> (c: Self)
        ensures
            c == cpu_sum(*self, *other),
    {
        CpuTotals {
            cpu_cycles: add_wrapping(self.cpu_cycles, other.cpu_cycles),
            instructions: add_wrapping(self.instructions, other.instructions),
            cache_references: add_wrapping(self.cache_references, other.cache_references),
            cache_misses: add_wrapping(self.cache_misses, other.cache_misses),
            l1_dcache_loads: add_wrapping(self.l1_dcache_loads, other.l1_dcache_loads),
            l1_dcache_load_misses: add_wrapping(
                self.l1_dcache_load_misses,
                other.l1_dcache_load_misses,
            ),
            llc_loads: add_wrapping(self.llc_loads, other.llc_loads),
            llc_load_misses: add_wrapping(self.llc_load_misses, other.llc_load_misses),
            branch_instructions: add_wrapping(self.branch_instructions, other.branch_instructions),
            branch_misses: add_wrapping(self.branch_misses, other.branch_misses),
            context_switches: add_wrapping(self.context_switches, other.context_switches),
            page_faults: add_wrapping(self.page_faults, other.page_faults),
            cpu_migrations: add_wrapping(self.cpu_migrations, other.cpu_migrations),
        }
    }
}

/// The measurements of one finished call, as recorded for its function.
#[derive(Clone, Copy)]
pub struct CallSample {
    pub total_ns: u64,
    pub self_ns: u64,
    pub frame_size: Option<u64>,
    pub recursion_depth: u32,
    pub call_depth: u32,
    pub alloc_entry: AllocSnapshot,
    pub alloc_exit: AllocSnapshot,
    /// Whether the tracking allocator is in use.
    pub allocator_active: bool,
    pub cpu: Option<CpuTotals>,
}

/// Everything recorded for a function, besides its identity.
pub struct StateView {
    pub call_count: u64,
    pub count: u64,
    pub total_ns: u64,
    pub self_ns: u64,
    pub min_ns: u64,
    pub max_ns: u64,
    pub reservoir: Seq<u64>,
    pub max_recursion: u32,
    pub max_depth: u32,
    pub total_alloc: u64,
    pub total_dealloc: u64,
    pub total_alloc_ops: u64,
    pub peak_delta: u64,
    pub frame_size_bytes: Option<u64>,
    pub cpu: Option<CpuTotals>,
}

/// A function's record before its first call.
pub open spec fn fresh_view() -> StateView {
    StateView {
        call_count: 0,
        count: 0,
        total_ns: 0,
        self_ns: 0,
        min_ns: u64::MAX,
        max_ns: 0,
        reservoir: Seq::empty(),
        max_recursion: 1,
        max_depth: 0,
        total_alloc: 0,
        total_dealloc: 0,
        total_alloc_ops: 0,
        peak_delta: 0,
        frame_size_bytes: None,
        cpu: None,
    }
}

/// A function's record after one more call measured as `c`.
pub open spec fn after_call(v: StateView, c: CallSample) -> StateView {
    let count = wrap_add(v.count, 1);
    StateView {
        call_count: wrap_add(v.call_count, 1),
        count,
        total_ns: wrap_add(v.total_ns, c.total_ns),
        self_ns: wrap_add(v.self_ns, c.self_ns),
        min_ns: if c.total_ns < v.min_ns {
            c.total_ns
        } else {
            v.min_ns
        },
        max_ns: if c.total_ns > v.max_ns {
            c.total_ns
        } else {
            v.max_ns
        },
        reservoir: reservoir_after(v.reservoir, count, c.total_ns),
        max_recursion: if c.recursion_depth > v.max_recursion {
            c.recursion_depth
        } else {
            v.max_recursion
        },
        max_depth: if c.call_depth > v.max_depth {
            c.call_depth
        } else {
            v.max_depth
        },
        total_alloc: if c.allocator_active {
            wrap_add(v.total_alloc, sat_sub(c.alloc_exit.total_alloc, c.alloc_entry.total_alloc))
        } else {
            v.total_alloc
        },
        total_dealloc: if c.allocator_active {
            wrap_add(
                v.total_dealloc,
                sat_sub(c.alloc_exit.total_dealloc, c.alloc_entry.total_dealloc),
            )
        } else {
            v.total_dealloc
        },
        total_alloc_ops: if c.allocator_active {
            wrap_add(v.total_alloc_ops, sat_sub(c.alloc_exit.alloc_ops, c.alloc_entry.alloc_ops))
        } else {
            v.total_alloc_ops
        },
        peak_delta: if c.allocator_active && sat_sub(c.alloc_exit.peak, entry_level(c.alloc_entry))
            > v.peak_delta {
            sat_sub(c.alloc_exit.peak, entry_level(c.alloc_entry))
        } else {
            v.peak_delta
        },
        frame_size_bytes: match c.frame_size {
            Some(fs) => if (v.frame_size_bytes matches Some(e) && fs <= e) {
                v.frame_size_bytes
            } else {
                Some(fs)
            },
            None => v.frame_size_bytes,
        },
        cpu: match c.cpu {
            Some(x) => Some(
                cpu_sum(
                    match v.cpu {
                        Some(a) => a,
                        None => cpu_zero(),
                    },
                    x,
                ),
            ),
            None => v.cpu,
        },
    }
}

/// The record kept for one function.
pub struct FunctionState {
    /// `module:name`, under which the function is recorded.
    pub key: String,
    pub name: String,
    pub file: String,
    pub line: u32,
    pub module: String,
    pub call_count: u64,
    pub timing: TimingAccumulator,
    pub max_recursion: u32,
    pub max_depth: u32,
    pub total_alloc: u64,
    pub total_dealloc: u64,
    pub total_alloc_ops: u64,
    pub peak_delta: u64,
    pub frame_size_bytes: Option<u64>,
    pub cpu: Option<CpuTotals>,
}

/// The key of a function: its module path, a colon, its name.
pub open spec fn key_of(module: Seq<char>, name: Seq<char>) -> Seq<char> {
    module + seq![':'] + name
}

impl FunctionState {
    pub open spec fn view(&self) -> StateView {
        StateView {
            call_count: self.call_count,
            count: self.timing.count,
            total_ns: self.timing.total_ns,
            self_ns: self.timing.self_ns,
            min_ns: self.timing.min_ns,
            max_ns: self.timing.max_ns,
            reservoir: self.timing.reservoir@,
            max_recursion: self.max_recursion,
            max_depth: self.max_depth,
            total_alloc: self.total_alloc,
            total_dealloc: self.total_dealloc,
            total_alloc_ops: self.total_alloc_ops,
            peak_delta: self.peak_delta,
            frame_size_bytes: self.frame_size_bytes,
            cpu: self.cpu,
        }
    }

    /// A record for a function not called yet.
    pub fn new(key: String, name: &str, file: &str, line: u32, module: &str) -> (s: Self)
        ensures
            s.view() == fresh_view(),
            s.timing.wf(),
            s.key@ == key@,
            s.name@ == name@,
            s.file@ == file@,
            s.line == line,
            s.module@ == module@,
    {
        let s = FunctionState {
            key,
            name: String::from_str(name),
            file: String::from_str(file),
            line,
            module: String::from_str(module),
            call_count: 0,
            timing: TimingAccumulator::new(),
            max_recursion: 1,
            max_depth: 0,
            total_alloc: 0,
            total_dealloc: 0,
            total_alloc_ops: 0,
            peak_delta: 0,
            frame_size_bytes: None,
            cpu: None,
        };
        assert(s.timing.reservoir@ =~= Seq::<u64>::empty());
        s
    }

    /// Folds one call into the record.
    pub fn add_call(&mut self, c: &CallSample)
        requires
            old(self).timing.wf(),
        ensures
            final(self).timing.wf(),
            final(self).view() == after_call(old(self).view(), *c),
            final(self).key == old(self).key,
            final(self).name == old(self).name,
            final(self).file == old(self).file,
            final(self).line == old(self).line,
            final(self).module == old(self).module,
    {
        self.call_count = add_wrapping(self.call_count, 1);
        self.timing.record(c.total_ns, c.self_ns);
        if c.recursion_depth > self.max_recursion {
            self.max_recursion = c.recursion_depth;
        }
        if c.call_depth > self.max_depth {
            self.max_depth = c.call_depth;
        }
        if c.allocator_active {
            let a = c.alloc_exit.alloc_delta(&c.alloc_entry);
            let d = c.alloc_exit.dealloc_delta(&c.alloc_entry);
            let o = c.alloc_exit.ops_delta(&c.alloc_entry);
            let p = c.alloc_exit.peak_delta(&c.alloc_entry);
            self.total_alloc = add_wrapping(self.total_alloc, a);
            self.total_dealloc = add_wrapping(self.total_dealloc, d);
            self.total_alloc_ops = add_wrapping(self.total_alloc_ops, o);
            if p > self.peak_delta {
                self.peak_delta = p;
            }
        }
        match c.frame_size {
            Some(fs) => {
                let replace = match self.frame_size_bytes {
                    Some(e) => fs > e,
                    None => true,
                };
                if replace {
                    self.frame_size_bytes = Some(fs);
                }
            },
            None => {},
        }
        match c.cpu {
            Some(x) => {
                let acc = match self.cpu {
                    Some(a) => a,
                    None => CpuTotals::zero(),
                };
                self.cpu = Some(acc.add(&x));
            },
            None => {},
        }
    }
}

/// The records of all functions called so far.
pub struct FunctionTable {
    pub states: Vec<FunctionState>,
}

/// The keys of `states`, in order.
pub open spec fn keys(states: Seq<FunctionState>) -> Seq<Seq<char>> {
    states.map_values(|s: FunctionState| s.key@)
}

/// Where `record` files a call of `key`: the position of its record, or a
/// new one at the end.
pub open spec fn record_slot(states: Seq<FunctionState>, key: Seq<char>) -> int {
    if keys(states).contains(key) {
        keys(states).index_of(key)
    } else {
        states.len() as int
    }
}

impl FunctionTable {
    /// Each function has one record, filed under its key, with a bounded
    /// reservoir.
    pub open spec fn wf(&self) -> bool {
        &&& keys(self.states@).no_duplicates()
        &&& forall|i: int|
            0 <= i < self.states@.len() ==> (#[trigger] self.states@[i]).timing.wf()
                && self.states@[i].key@ == key_of(self.states@[i].module@, self.states@[i].name@)
    }

    /// No function recorded.
    pub fn new() -> (t: Self)
        ensures
            t.wf(),
            t.states@.len() == 0,
    {
        let t = FunctionTable { states: Vec::new() };
        assert(keys(t.states@) =~= Seq::<Seq<char>>::empty());
        t
    }

    fn find(&self, key: &String) -> (r: Option<usize>)
        requires
            keys(self.states@).no_duplicates(),
        ensures
            r is None ==> !keys(self.states@).contains(key@),
            r matches Some(i) ==> i < self.states@.len() && keys(self.states@).contains(key@)
                && keys(self.states@).index_of(key@) == i as int,
    {
        let ghost ks = keys(self.states@);
        let n = self.states.len();
        let mut i: usize = 0;
        while i < n
            invariant
                n == self.states@.len(),
                i <= n,
                ks == keys(self.states@),
                ks.no_duplicates(),
                forall|k: int| 0 <= k < i ==> ks[k] != key@,
            decreases n - i,
        {
            assert(ks[i as int] == self.states@[i as int].key@);
            if self.states[i].key == *key {
                assert(ks.contains(key@));
                assert(ks.index_of(key@) == i as int) by {
                    let c = ks.index_of(key@);
                    assert(ks[c] == key@);
                }
                return Some(i);
            }
            i = i + 1;
        }
        None
    }

    /// The number of recorded calls of the function `name` of `module`
    /// (zero if it was never called).
    pub fn call_count_of(&self, module: &str, name: &str) -> (r: u64)
        requires
            self.wf(),
        ensures
            ({
                let p = record_slot(self.states@, key_of(module@, name@));
                r == (if p < self.states@.len() {
                    self.states@[p].call_count
                } else {
                    0
                })
            }),
    {
        let key = make_key(module, name);
        match self.find(&key) {
            Some(i) => self.states[i].call_count,
            None => 0,
        }
    }

    /// Records one finished call of function `name` of `module`, creating
    /// its record at the first call.
    pub fn record(&mut self, name: &str, file: &str, line: u32, module: &str, c: &CallSample)
        requires
            old(self).wf(),
        ensures
            final(self).wf(),
            ({
                let key = key_of(module@, name@);
                let p = record_slot(old(self).states@, key);
                let olds = old(self).states@;
                let news = final(self).states@;
                &&& news.len() == (if p == olds.len() {
                    olds.len() + 1
                } else {
                    olds.len()
                })
                &&& news[p].key@ == key
                &&& p == olds.len() ==> {
                    &&& news[p].view() == after_call(fresh_view(), *c)
                    &&& news[p].name@ == name@
                    &&& news[p].file@ == file@
                    &&& news[p].line == line
                    &&& news[p].module@ == module@
                }
                &&& p < olds.len() ==> {
                    &&& news[p].view() == after_call(olds[p].view(), *c)
                    &&& news[p].name == olds[p].name
                    &&& news[p].file == olds[p].file
                    &&& news[p].line == olds[p].line
                    &&& news[p].module == olds[p].module
                }
                &&& forall|j: int| 0 <= j < olds.len() && j != p ==> #[trigger] news[j] == olds[j]
            }),
    {
        let key = make_key(module, name);
        let ghost olds = self.states@;
        match self.find(&key) {
            Some(i) => {
                let mut st = self.states.remove(i);
                st.add_call(c);
                self.states.insert(i, st);
                proof {
                    let news = self.states@;
                    assert(keys(news) =~= keys(olds));
                    assert forall|j: int| 0 <= j < news.len() implies (#[trigger] news[j]).timing.wf()
                        && news[j].key@ == key_of(news[j].module@, news[j].name@) by {
                        if j != i {
                            assert(news[j] == olds[j]);
                        }
                    }
                }
            },
            None => {
                let mut st = FunctionState::new(key, name, file, line, module);
                st.add_call(c);
                self.states.push(st);
                proof {
                    let news = self.states@;
                    assert(keys(news) =~= keys(olds).push(key_of(module@, name@)));
                    assert(keys(news).no_duplicates()) by {
                        let ks = keys(news);
                        assert forall|a: int, b: int|
                            0 <= a < ks.len() && 0 <= b < ks.len() && a != b implies ks[a]
                            != ks[b] by {
                            if a < olds.len() && b == olds.len() {
                                assert(keys(olds).contains(ks[a]));
                            } else if b < olds.len() && a == olds.len() {
                                assert(keys(olds).contains(ks[b]));
                            }
                        }
                    }
                    assert forall|j: int| 0 <= j < news.len() implies (#[trigger] news[j]).timing.wf()
                        && news[j].key@ == key_of(news[j].module@, news[j].name@) by {
                        if j < olds.len() {
                            assert(news[j] == olds[j]);
                        }
                    }
                }
            },
        }
    }
}

/// `module:name`.
pub fn make_key(module: &str, name: &str) -> (k: String)
    ensures
        k@ == key_of(module@, name@),
{
    let mut k = String::from_str(module);
    k.push(':');
    k.append(name);
    k
}

// ─── summaries ──────────────────────────────────────────────────────────────

/// Memory totals of one function.
#[derive(Clone, Copy, PartialEq, Eq, Structural, Debug)]
pub struct MemoryTotals {
    pub total_alloc_bytes: u64,
    pub total_dealloc_bytes: u64,
    pub peak_delta_bytes: i64,
    pub alloc_count: u64,
    pub net_retained_bytes: i64,
    pub alloc_op_count: u64,
}

/// The integer part of a function's report.
pub struct FunctionSummary {
    pub name: String,
    pub module_name: String,
    pub file: String,
    pub line: u32,
    pub call_count: u64,
    pub max_recursion_depth: u32,
    pub total_ns: u64,
    pub self_ns: u64,
    pub avg_ns: u64,
    pub min_ns: u64,
    pub max_ns: u64,
    pub frame_size_bytes: Option<u64>,
    pub max_call_depth: u32,
    pub memory: Option<MemoryTotals>,
    pub cpu: Option<CpuTotals>,
    pub outlier_count: u64,
}

/// `x - y` wrapped into an `i64`.
pub open spec fn wrap_sub_i(x: i64, y: i64) -> i64 {
    if x - y > i64::MAX {
        (x - y - 0x1_0000_0000_0000_0000) as i64
    } else if x - y < i64::MIN {
        (x - y + 0x1_0000_0000_0000_0000) as i64
    } else {
        (x - y) as i64
    }
}

/// The memory totals of a record: reported only when the allocator is in
/// use and the function allocated at all.
pub open spec fn memory_of(s: FunctionState, allocator_active: bool) -> Option<MemoryTotals> {
    if allocator_active && s.total_alloc_ops > 0 {
        Some(
            MemoryTotals {
                total_alloc_bytes: s.total_alloc,
                total_dealloc_bytes: s.total_dealloc,
                peak_delta_bytes: s.peak_delta as i64,
                alloc_count: s.total_alloc_ops,
                net_retained_bytes: wrap_sub_i(s.total_alloc as i64, s.total_dealloc as i64),
                alloc_op_count: s.total_alloc_ops,
            },
        )
    } else {
        None
    }
}

/// How many entries of `names` are `name`.
pub open spec fn occurrences(names: Seq<Seq<char>>, name: Seq<char>) -> nat
    decreases names.len(),
{
    if names.len() == 0 {
        0
    } else {
        occurrences(names.drop_last(), name) + if names.last() == name {
            1nat
        } else {
            0nat
        }
    }
}

/// The summary of record `s`, given the functions named by the outlier
/// records.
pub open spec fn summary_matches(
    r: FunctionSummary,
    s: FunctionState,
    allocator_active: bool,
    outlier_names: Seq<Seq<char>>,
) -> bool {
    &&& r.name@ == s.name@
    &&& r.module_name@ == s.module@
    &&& r.file@ == s.file@
    &&& r.line == s.line
    &&& r.call_count == s.call_count
    &&& r.max_recursion_depth == s.max_recursion
    &&& r.total_ns == s.timing.total_ns
    &&& r.self_ns == s.timing.self_ns
    &&& r.avg_ns == (if s.timing.count > 0 {
        s.timing.total_ns / s.timing.count
    } else {
        0
    })
    &&& r.min_ns == (if s.timing.min_ns == u64::MAX {
        0
    } else {
        s.timing.min_ns
    })
    &&& r.max_ns == s.timing.max_ns
    &&& r.frame_size_bytes == s.frame_size_bytes
    &&& r.max_call_depth == s.max_depth
    &&& r.memory == memory_of(s, allocator_active)
    &&& r.cpu == s.cpu
    &&& r.outlier_count == occurrences(outlier_names, s.name@)
}

fn count_occurrences(names: &Vec<String>, name: &String) -> (r: u64)
    ensures
        r == occurrences(names@.map_values(|n: String| n@), name@),
{
    let ghost ns = names@.map_values(|n: String| n@);
    let mut c: u64 = 0;
    let mut i: usize = 0;
    while i < names.len()
        invariant
            i <= names@.len(),
            ns == names@.map_values(|n: String| n@),
            c == occurrences(ns.take(i as int), name@),
            c <= i,
        decreases names@.len() - i,
    {
        proof {
            assert(ns.take(i + 1).drop_last() =~= ns.take(i as int));
            assert(ns[i as int] == names@[i as int]@);
        }
        if names[i] == *name {
            c = c + 1;
        }
        i = i + 1;
    }
    assert(ns.take(names@.len() as int) =~= ns);
    c
}

fn copy_string(s: &String) -> (r: String)
    ensures
        r@ == s@,
{
    s.clone()
}

/// Summarises every record, in table order. `outlier_names` holds the
/// function name of each outlier record; a function's outlier count is the
/// number of those that name it.
pub fn summarize_functions(
    table: &FunctionTable,
    allocator_active: bool,
    outlier_names: &Vec<String>,
) -> (r: Vec<FunctionSummary>)
    ensures
        r@.len() == table.states@.len(),
        forall|i: int|
            0 <= i < r@.len() ==> summary_matches(
                #[trigger] r@[i],
                table.states@[i],
                allocator_active,
                outlier_names@.map_values(|n: String| n@),
            ),
{
    let ghost names = outlier_names@.map_values(|n: String| n@);
    let mut out: Vec<FunctionSummary> = Vec::new();
    let mut i: usize = 0;
    while i < table.states.len()
        invariant
            i <= table.states@.len(),
            out@.len() == i,
            names == outlier_names@.map_values(|n: String| n@),
            forall|k: int|
                0 <= k < i ==> summary_matches(
                    #[trigger] out@[k],
                    table.states@[k],
                    allocator_active,
                    names,
                ),
        decreases table.states@.len() - i,
    {
        let s = &table.states[i];
        let memory = if allocator_active && s.total_alloc_ops > 0 {
            let a: i64 = s.total_alloc as i64;
            let d: i64 = s.total_dealloc as i64;
            Some(
                MemoryTotals {
                    total_alloc_bytes: s.total_alloc,
                    total_dealloc_bytes: s.total_dealloc,
                    peak_delta_bytes: s.peak_delta as i64,
                    alloc_count: s.total_alloc_ops,
                    net_retained_bytes: a.wrapping_sub(d),
                    alloc_op_count: s.total_alloc_ops,
                },
            )
        } else {
            None
        };
        let summary = FunctionSummary {
            name: copy_string(&s.name),
            module_name: copy_string(&s.module),
            file: copy_string(&s.file),
            line: s.line,
            call_count: s.call_count,
            max_recursion_depth: s.max_recursion,
            total_ns: s.timing.total_ns,
            self_ns: s.timing.self_ns,
            avg_ns: s.timing.avg_ns(),
            min_ns: s.timing.min_or_zero(),
            max_ns: s.timing.max_ns,
            frame_size_bytes: s.frame_size_bytes,
            max_call_depth: s.max_depth,
            memory,
            cpu: s.cpu,
            outlier_count: count_occurrences(outlier_names, &s.name),
        };
        out.push(summary);
        i = i + 1;
    }
    out
}

// ─── session state ──────────────────────────────────────────────────────────

/// The session-wide profiler state: whether profiling is on, the function
/// records, and the roots of the call trees of all threads.
pub struct ProfilerState {
    pub enabled: bool,
    pub start_unix: u64,
    pub table: FunctionTable,
    pub call_trees: Vec<CallTreeNode>,
}

impl ProfilerState {
    pub open spec fn wf(&self) -> bool {
        self.table.wf()
    }

    /// A disabled profiler with nothing recorded, started at `start_unix`
    /// (seconds since the Unix epoch).
    pub fn new(start_unix: u64) -> (p: Self)
        ensures
            p.wf(),
            !p.enabled,
            p.start_unix == start_unix,
            p.table.states@.len() == 0,
            p.call_trees@.len() == 0,
    {
        ProfilerState {
            enabled: false,
            start_unix,
            table: FunctionTable::new(),
            call_trees: Vec::new(),
        }
    }

    /// Turns profiling on.
    pub fn enable(&mut self)
        ensures
            final(self).enabled,
            final(self).start_unix == old(self).start_unix,
            final(self).table == old(self).table,
            final(self).call_trees == old(self).call_trees,
    {
        self.enabled = true;
    }

    /// Whether profiling is on.
    pub fn is_enabled(&self) -> (r: bool)
        ensures
            r == self.enabled,
    {
        self.enabled
    }

    /// Adds the tree of a call that had no profiled caller.
    pub fn push_call_tree_root(&mut self, node: CallTreeNode)
        ensures
            final(self).call_trees@ == old(self).call_trees@.push(node),
            final(self).enabled == old(self).enabled,
            final(self).start_unix == old(self).start_unix,
            final(self).table == old(self).table,
    {
        self.call_trees.push(node);
    }

    /// Forgets all records and call trees; profiling stays as it was.
    pub fn reset(&mut self)
        ensures
            final(self).wf(),
            final(self).table.states@.len() == 0,
            final(self).call_trees@.len() == 0,
            final(self).enabled == old(self).enabled,
            final(self).start_unix == old(self).start_unix,
    {
        self.table = FunctionTable::new();
        self.call_trees = Vec::new();
    }
}

/// A record after the calls `cs`, folded in order.
pub open spec fn after_calls(v: StateView, cs: Seq<CallSample>) -> StateView
    decreases cs.len(),
{
    if cs.len() == 0 {
        v
    } else {
        after_call(after_calls(v, cs.drop_last()), cs.last())
    }
}

/// Every call is counted: after `n` calls (fewer than 2^64) a new record
/// holds a call count of `n`, and so does its timing.
pub proof fn lemma_calls_counted(cs: Seq<CallSample>)
    requires
        cs.len() <= u64::MAX,
    ensures
        after_calls(fresh_view(), cs).call_count == cs.len(),
        after_calls(fresh_view(), cs).count == cs.len(),
    decreases cs.len(),
{
    if cs.len() > 0 {
        lemma_calls_counted(cs.drop_last());
    }
}

/// Once a function has been called, its shortest call is no longer than
/// its longest, and both are durations of calls it made.
pub proof fn lemma_min_le_max(cs: Seq<CallSample>)
    requires
        cs.len() > 0,
    ensures
        after_calls(fresh_view(), cs).min_ns <= after_calls(fresh_view(), cs).max_ns,
        exists|i: int| 0 <= i < cs.len() && #[trigger] cs[i].total_ns == after_calls(fresh_view(), cs).min_ns,
        exists|i: int| 0 <= i < cs.len() && #[trigger] cs[i].total_ns == after_calls(fresh_view(), cs).max_ns,
    decreases cs.len(),
{
    let pre = cs.drop_last();
    if pre.len() > 0 {
        lemma_min_le_max(pre);
        let i = choose|i: int| 0 <= i < pre.len() && #[trigger] pre[i].total_ns == after_calls(fresh_view(), pre).min_ns;
        let j = choose|j: int| 0 <= j < pre.len() && #[trigger] pre[j].total_ns == after_calls(fresh_view(), pre).max_ns;
        assert(cs[i] == pre[i]);
        assert(cs[j] == pre[j]);
        assert(cs[cs.len() - 1] == cs.last());
    } else {
        assert(cs[0] == cs.last());
    }
}

/// A function's self time never exceeds its inclusive time, as long as
/// that holds of each call and the totals do not wrap around.
pub proof fn lemma_self_within_total(cs: Seq<CallSample>)
    requires
        forall|i: int| 0 <= i < cs.len() ==> (#[trigger] cs[i]).self_ns <= cs[i].total_ns,
        after_calls_total(cs) <= u64::MAX,
    ensures
        after_calls(fresh_view(), cs).self_ns <= after_calls(fresh_view(), cs).total_ns,
        after_calls(fresh_view(), cs).total_ns == after_calls_total(cs),
    decreases cs.len(),
{
    if cs.len() > 0 {
        let pre = cs.drop_last();
        assert forall|i: int| 0 <= i < pre.len() implies (#[trigger] pre[i]).self_ns <= pre[i].total_ns by {
            assert(pre[i] == cs[i]);
        }
        lemma_total_sum_grows(cs);
        lemma_self_within_total(pre);
        assert(cs.last() == cs[cs.len() - 1]);
    }
}

/// The sum of the inclusive times of `cs`.
pub open spec fn after_calls_total(cs: Seq<CallSample>) -> nat
    decreases cs.len(),
{
    if cs.len() == 0 {
        0
    } else {
        after_calls_total(cs.drop_last()) + cs.last().total_ns as nat
    }
}

proof fn lemma_total_sum_grows(cs: Seq<CallSample>)
    requires
        cs.len() > 0,
    ensures
        after_calls_total(cs.drop_last()) <= after_calls_total(cs),
{
}


/// The percentiles of a function are ordered, and lie between its shortest
/// and longest call: read from the sorted reservoir at positions `i <= j`
/// (the 50th, 95th and 99th percentile ranks rise in that order), the
/// value at `i` is at most the value at `j`, and both lie between the
/// minimum and the maximum.
pub proof fn lemma_percentiles_ordered(t: TimingAccumulator, s: Seq<u64>, i: int, j: int)
    requires
        t.wf(),
        sorted_of(t.reservoir@, s),
        0 <= i <= j < s.len(),
    ensures
        t.min_ns <= s[i] <= s[j] <= t.max_ns,
{
    let r = t.reservoir@;
    let o = choose|o: Seq<usize>|
        #[trigger] is_desc_order(r, o) && forall|k: int|
            0 <= k < s.len() ==> #[trigger] s[k] == r[o[s.len() - 1 - k] as int];
    let n = s.len();
    assert(s[i] == r[o[n - 1 - i] as int]);
    assert(s[j] == r[o[n - 1 - j] as int]);
    assert(o[n - 1 - i] < r.len() && o[n - 1 - j] < r.len());
    assert(t.min_ns <= r[o[n - 1 - i] as int] <= t.max_ns);
    assert(t.min_ns <= r[o[n - 1 - j] as int] <= t.max_ns);
    if i < j {
        assert(crate::order::goes_before(r, o[n - 1 - j] as int, o[n - 1 - i] as int));
    }
}

} // verus!
