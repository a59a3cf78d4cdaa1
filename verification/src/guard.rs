//! Entering and leaving a profiled function: the steps a profile guard
//! takes on the thread's call stack and in the session records.

use vstd::prelude::*;
use vstd::string::StringExecFns;
use crate::memory::{AllocSnapshot, sat_sub};
use crate::calltree::{CallStack, Frame, FrameExit, exited, frame_size_of, node_of};
use crate::records::{
    CallSample, CpuTotals, ProfilerState, after_call, fresh_view, key_of, keys, record_slot,
};

verus! {

/// Created when a profiled function is entered, consumed when it is left.
pub struct ProfileGuard {
    pub name: String,
    pub file: String,
    pub line: u32,
    pub module: String,
}

/// What the rest of the profiler learns about a finished call.
pub struct CallFinished {
    pub name: String,
    pub module: String,
    /// Clock reading at entry.
    pub start_ns: u64,
    pub total_ns: u64,
    pub self_ns: u64,
    /// Calls still in progress on the thread.
    pub call_depth: u32,
    /// Bytes allocated and freed during the call (zero without the tracking
    /// allocator).
    pub alloc_bytes: u64,
    pub dealloc_bytes: u64,
    /// How many calls of this function have been recorded, this one
    /// included.
    pub call_index: u64,
}

/// The sample recorded for frame `f` left at `now_ns`.
pub open spec fn sample_of(
    f: Frame,
    now_ns: u64,
    sp_now: Option<usize>,
    alloc_exit: AllocSnapshot,
    allocator_active: bool,
    cpu: Option<CpuTotals>,
    call_depth: u32,
) -> CallSample {
    CallSample {
        total_ns: (now_ns - f.start_ns) as u64,
        self_ns: (now_ns - f.start_ns - f.child_ns) as u64,
        frame_size: frame_size_of(f.sp_at_entry, sp_now),
        recursion_depth: f.depth_at_entry,
        call_depth,
        alloc_entry: f.alloc_at_entry,
        alloc_exit,
        allocator_active,
        cpu,
    }
}

/// The cycle count of an optional hardware-counter reading.
pub open spec fn cycles_opt(cpu: Option<CpuTotals>) -> Option<u64> {
    match cpu {
        Some(c) => Some(c.cpu_cycles),
        None => None::<u64>,
    }
}

fn cycles_of(cpu: &Option<CpuTotals>) -> (r: Option<u64>)
    ensures
        r == cycles_opt(*cpu),
{
    match cpu {
        Some(c) => Some(c.cpu_cycles),
        None => None,
    }
}

impl ProfileGuard {
    /// Enters a profiled function at clock reading `now_ns`: when profiling
    /// is on, a frame is pushed on the thread's stack.
    pub fn enter(
        state: &ProfilerState,
        stack: &mut CallStack,
        name: &str,
        file: &str,
        line: u32,
        module: &str,
        now_ns: u64,
        sp: Option<usize>,
        alloc: AllocSnapshot,
    ) -> (g: Self)
        requires
            old(stack).wf(),
            now_ns >= old(stack).clock,
            old(stack).frames@.len() < u32::MAX,
        ensures
            final(stack).wf(),
            g.name@ == name@ && g.file@ == file@ && g.line == line && g.module@ == module@,
            !state.enabled ==> *final(stack) == *old(stack),
            state.enabled ==> {
                let f = final(stack).frames@.last();
                &&& final(stack).clock == now_ns
                &&& final(stack).frames@.drop_last() == old(stack).frames@
                &&& final(stack).frames@.len() == old(stack).frames@.len() + 1
                &&& f.name@ == name@ && f.file@ == file@ && f.line == line && f.module@ == module@
                &&& f.start_ns == now_ns && f.sp_at_entry == sp && f.alloc_at_entry == alloc
                &&& f.child_ns == 0 && f.children@.len() == 0
                &&& f.depth_at_entry == final(stack).depth
            },
    {
        if state.is_enabled() {
            stack.enter(name, file, line, module, now_ns, sp, alloc);
        }
        ProfileGuard {
            name: String::from_str(name),
            file: String::from_str(file),
            line,
            module: String::from_str(module),
        }
    }

    /// Leaves the profiled function at clock reading `now_ns`. When
    /// profiling is on and a call is in progress, the innermost call is
    /// measured and recorded under its function, its tree node is kept
    /// (as a root when it had no profiled caller), and its measurements
    /// are returned.
    pub fn exit(
        self,
        state: &mut ProfilerState,
        stack: &mut CallStack,
        now_ns: u64,
        sp_now: Option<usize>,
        alloc_exit: AllocSnapshot,
        allocator_active: bool,
        cpu: Option<CpuTotals>,
    ) -> (r: Option<CallFinished>)
        requires
            old(state).wf(),
            old(stack).wf(),
            now_ns >= old(stack).clock,
        ensures
            final(state).wf(),
            final(stack).wf(),
            (!old(state).enabled || old(stack).frames@.len() == 0) ==> {
                &&& r is None
                &&& final(stack).frames@ == old(stack).frames@
                &&& final(stack).clock == old(stack).clock
                &&& final(state).table == old(state).table
                &&& final(state).call_trees == old(state).call_trees
            },
            (old(state).enabled && old(stack).frames@.len() > 0) ==> r is Some && ({
                let n = old(stack).frames@.len() - 1;
                let f = old(stack).frames@[n];
                let c = r->0;
                let smp = sample_of(f, now_ns, sp_now, alloc_exit, allocator_active, cpu, n as u32);
                let key = key_of(f.module@, f.name@);
                let p = record_slot(old(state).table.states@, key);
                let olds = old(state).table.states@;
                let news = final(state).table.states@;
                &&& final(stack).frames@.len() == n
                &&& final(stack).clock == now_ns
                &&& c.name == f.name && c.module == f.module
                &&& c.start_ns == f.start_ns
                &&& c.total_ns == now_ns - f.start_ns
                &&& c.self_ns == now_ns - f.start_ns - f.child_ns
                &&& c.call_depth == n
                &&& c.alloc_bytes == (if allocator_active {
                    sat_sub(alloc_exit.total_alloc, f.alloc_at_entry.total_alloc)
                } else {
                    0
                })
                &&& c.dealloc_bytes == (if allocator_active {
                    sat_sub(alloc_exit.total_dealloc, f.alloc_at_entry.total_dealloc)
                } else {
                    0
                })
                &&& news.len() == (if p == olds.len() {
                    olds.len() + 1
                } else {
                    olds.len()
                })
                &&& news[p].key@ == key
                &&& p == olds.len() ==> news[p].name@ == f.name@ && news[p].file@ == f.file@
                    && news[p].line == f.line && news[p].module@ == f.module@
                &&& p < olds.len() ==> news[p].name == olds[p].name && news[p].file == olds[p].file
                    && news[p].line == olds[p].line && news[p].module == olds[p].module
                &&& c.call_index == news[p].call_count
                &&& news[p].view() == after_call(
                    if p < olds.len() {
                        olds[p].view()
                    } else {
                        fresh_view()
                    },
                    smp,
                )
                &&& forall|j: int| 0 <= j < olds.len() && j != p ==> #[trigger] news[j] == olds[j]
                // the stack as leaving the call leaves it: the caller is
                // charged the call's time and holds its tree node
                &&& exists|x: FrameExit|
                    exited(
                        *old(stack),
                        *final(stack),
                        Some(x),
                        now_ns,
                        sp_now,
                        alloc_exit,
                        allocator_active,
                        cycles_opt(cpu),
                    )
                &&& n == 0 ==> final(state).call_trees@.len() == old(state).call_trees@.len() + 1
                    && final(state).call_trees@.drop_last() == old(state).call_trees@
                    && node_of(
                    final(state).call_trees@.last(),
                    f,
                    (now_ns - f.start_ns) as u64,
                    alloc_exit,
                    allocator_active,
                    cycles_opt(cpu),
                )
                &&& n > 0 ==> final(state).call_trees == old(state).call_trees
            }),
            final(state).enabled == old(state).enabled,
            final(state).start_unix == old(state).start_unix,
    {
        if !state.is_enabled() {
            return None;
        }
        let ghost old_frames = stack.frames@;
        let cycles = cycles_of(&cpu);
        let e = match stack.exit(now_ns, sp_now, alloc_exit, allocator_active, cycles) {
            Some(e) => e,
            None => {
                return None;
            },
        };
        let ghost ex = e;
        let sample = CallSample {
            total_ns: e.total_ns,
            self_ns: e.self_ns,
            frame_size: e.frame_size,
            recursion_depth: e.recursion_depth,
            call_depth: e.call_depth,
            alloc_entry: e.alloc_entry,
            alloc_exit: e.alloc_exit,
            allocator_active,
            cpu,
        };
        let ghost f = old_frames[old_frames.len() - 1];
        assert(sample == sample_of(
            f,
            now_ns,
            sp_now,
            alloc_exit,
            allocator_active,
            cpu,
            (old_frames.len() - 1) as u32,
        ));
        let ghost before = state.call_trees@;
        match e.root {
            Some(node) => {
                state.push_call_tree_root(node);
                assert(state.call_trees@.drop_last() =~= before);
                assert(state.call_trees@.last() == node);
            },
            None => {},
        }
        assert(exited(
            *old(stack),
            *stack,
            Some(ex),
            now_ns,
            sp_now,
            alloc_exit,
            allocator_active,
            cycles_opt(cpu),
        ));
        state.table.record(e.name.as_str(), e.file.as_str(), e.line, e.module.as_str(), &sample);
        proof {
            let news = state.table.states@;
            let key = key_of(e.module@, e.name@);
            let ks = keys(news);
            let q = record_slot(old(state).table.states@, key);
            assert(ks[q] == news[q].key@);
            assert(ks.contains(key));
            assert(ks.index_of(key) == q) by {
                let c = ks.index_of(key);
                assert(ks[c] == key);
            }
        }
        let call_index = state.table.call_count_of(e.module.as_str(), e.name.as_str());
        let alloc_bytes: u64 = if allocator_active {
            e.alloc_exit.alloc_delta(&e.alloc_entry)
        } else {
            0
        };
        let dealloc_bytes: u64 = if allocator_active {
            e.alloc_exit.dealloc_delta(&e.alloc_entry)
        } else {
            0
        };
        Some(
            CallFinished {
                name: e.name,
                module: e.module,
                start_ns: e.start_ns,
                total_ns: e.total_ns,
                self_ns: e.self_ns,
                call_depth: e.call_depth,
                alloc_bytes,
                dealloc_bytes,
                call_index,
            },
        )
    }
}

} // verus!
