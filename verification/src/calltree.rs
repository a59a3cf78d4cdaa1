//! The per-thread call stack of profiled functions and the call tree it
//! builds.
//!
//! Entering a profiled function pushes a frame; leaving it pops the frame,
//! measures the call, charges its time to the caller and hangs a call-tree
//! node under the caller (or returns it as a root). Times are readings of a
//! monotonic clock in nanoseconds since the session started.

use vstd::prelude::*;
use vstd::string::StringExecFns;
use crate::memory::{AllocSnapshot, sat_sub};
use crate::stack::frame_size;

verus! {

/// One node of a call tree: a single call and the calls it made.
pub struct CallTreeNode {
    pub name: String,
    pub call_count: u64,
    pub total_ns: u64,
    pub children: Vec<CallTreeNode>,
    pub file: String,
    pub line: u32,
    pub duration_ns: u64,
    pub alloc_bytes: Option<u64>,
    pub cpu_cycles: Option<u64>,
}

/// A profiled call in progress.
pub struct Frame {
    pub name: String,
    pub file: String,
    pub line: u32,
    pub module: String,
    /// Clock reading at entry.
    pub start_ns: u64,
    /// Stack pointer at entry, where the platform can read it.
    pub sp_at_entry: Option<usize>,
    /// Allocator counters at entry.
    pub alloc_at_entry: AllocSnapshot,
    /// Time charged to the calls this call has made and finished.
    pub child_ns: u64,
    /// Call depth of this thread once this frame was entered.
    pub depth_at_entry: u32,
    /// Call-tree nodes of the finished calls made by this call.
    pub children: Vec<CallTreeNode>,
}

/// The calls in progress on one thread, outermost first.
pub struct CallStack {
    pub frames: Vec<Frame>,
    /// This thread's call depth counter.
    pub depth: u32,
    /// The latest clock reading seen.
    pub clock: u64,
}

/// What leaving a call yields.
pub struct FrameExit {
    pub name: String,
    pub file: String,
    pub line: u32,
    pub module: String,
    /// Clock reading at entry.
    pub start_ns: u64,
    /// Inclusive time of the call.
    pub total_ns: u64,
    /// Time not spent in profiled callees.
    pub self_ns: u64,
    /// Stack consumed by the call, where both stack pointers were read.
    pub frame_size: Option<u64>,
    /// The depth at which the call was entered.
    pub recursion_depth: u32,
    /// The number of calls still in progress on this thread.
    pub call_depth: u32,
    pub alloc_entry: AllocSnapshot,
    pub alloc_exit: AllocSnapshot,
    pub cpu_cycles: Option<u64>,
    /// The call's tree node, when the call had no profiled caller.
    pub root: Option<CallTreeNode>,
}

/// The time by which frame `i` must have finished charging its children:
/// the entry of the next frame, or the latest clock reading for the
/// innermost one.
pub open spec fn charge_limit(frames: Seq<Frame>, clock: u64, i: int) -> int {
    if i + 1 < frames.len() {
        frames[i + 1].start_ns as int
    } else {
        clock as int
    }
}

/// The stack stays in step with the clock: no call has been charged more
/// child time than has passed since it started and before its current
/// callee started.
pub open spec fn frames_fit(frames: Seq<Frame>, clock: u64) -> bool {
    forall|i: int|
        0 <= i < frames.len() ==> #[trigger] frames[i].start_ns + frames[i].child_ns
            <= charge_limit(frames, clock, i)
}

/// Stack consumed between two optional stack-pointer readings.
pub open spec fn frame_size_of(entry: Option<usize>, now: Option<usize>) -> Option<u64> {
    match (entry, now) {
        (Some(e), Some(n)) => Some(
            if e >= n {
                (e - n) as u64
            } else {
                0
            },
        ),
        _ => None,
    }
}

/// What entering a call at `now_ns` makes of the stack `before`: one frame
/// more, for the new call, with nothing charged to it yet.
pub open spec fn entered(
    before: CallStack,
    after: CallStack,
    name: Seq<char>,
    file: Seq<char>,
    line: u32,
    module: Seq<char>,
    now_ns: u64,
    sp: Option<usize>,
    alloc: AllocSnapshot,
) -> bool {
    &&& after.clock == now_ns
    &&& after.frames@.len() == before.frames@.len() + 1
    &&& after.frames@.drop_last() == before.frames@
    &&& ({
        let f = after.frames@.last();
        &&& f.name@ == name
        &&& f.file@ == file
        &&& f.line == line
        &&& f.module@ == module
        &&& f.start_ns == now_ns
        &&& f.sp_at_entry == sp
        &&& f.alloc_at_entry == alloc
        &&& f.child_ns == 0
        &&& f.depth_at_entry == after.depth
        &&& f.children@.len() == 0
    })
}

/// The tree node made of the finished call `f`, with inclusive time
/// `total_ns`.
pub open spec fn node_of(
    nd: CallTreeNode,
    f: Frame,
    total_ns: u64,
    alloc_exit: AllocSnapshot,
    allocator_active: bool,
    cpu_cycles: Option<u64>,
) -> bool {
    &&& nd.name == f.name
    &&& nd.call_count == 1
    &&& nd.total_ns == total_ns
    &&& nd.file == f.file
    &&& nd.line == f.line
    &&& nd.duration_ns == total_ns
    &&& nd.alloc_bytes == (if allocator_active {
        Some(sat_sub(alloc_exit.total_alloc, f.alloc_at_entry.total_alloc))
    } else {
        None
    })
    &&& nd.cpu_cycles == cpu_cycles
    &&& nd.children@ == f.children@
}

/// What leaving the innermost call at `now_ns` makes of the stack `before`,
/// and what it yields. Without a call in progress nothing changes and
/// nothing is yielded.
pub open spec fn exited(
    before: CallStack,
    after: CallStack,
    r: Option<FrameExit>,
    now_ns: u64,
    sp_now: Option<usize>,
    alloc_exit: AllocSnapshot,
    allocator_active: bool,
    cpu_cycles: Option<u64>,
) -> bool {
    &&& before.frames@.len() == 0 ==> r is None && after.frames@ == before.frames@ && after.clock
        == before.clock && after.depth == before.depth
    &&& before.frames@.len() > 0 ==> r is Some && ({
        let n = before.frames@.len() - 1;
        let f = before.frames@[n];
        let e = r->0;
        &&& after.clock == now_ns
        &&& after.frames@.len() == n
        &&& e.name == f.name
        &&& e.file == f.file
        &&& e.line == f.line
        &&& e.module == f.module
        &&& e.start_ns == f.start_ns
        &&& e.total_ns == now_ns - f.start_ns
        &&& e.self_ns == e.total_ns - f.child_ns
        &&& e.self_ns <= e.total_ns
        &&& e.frame_size == frame_size_of(f.sp_at_entry, sp_now)
        &&& e.recursion_depth == f.depth_at_entry
        &&& e.call_depth == n
        &&& e.alloc_entry == f.alloc_at_entry
        &&& e.alloc_exit == alloc_exit
        &&& e.cpu_cycles == cpu_cycles
        &&& if n == 0 {
            e.root matches Some(nd) && node_of(
                nd,
                f,
                e.total_ns,
                alloc_exit,
                allocator_active,
                cpu_cycles,
            )
        } else {
            let p = before.frames@[n - 1];
            let q = after.frames@[n - 1];
            &&& e.root is None
            &&& after.frames@.take(n - 1) == before.frames@.take(n - 1)
            &&& q.child_ns == p.child_ns + e.total_ns
            &&& q.children@.len() == p.children@.len() + 1
            &&& q.children@.drop_last() == p.children@
            &&& node_of(q.children@.last(), f, e.total_ns, alloc_exit, allocator_active, cpu_cycles)
            &&& q.name == p.name && q.file == p.file && q.line == p.line
            &&& q.module == p.module && q.start_ns == p.start_ns
            &&& q.sp_at_entry == p.sp_at_entry && q.alloc_at_entry == p.alloc_at_entry
            &&& q.depth_at_entry == p.depth_at_entry
        }
    })
}

impl CallStack {
    pub open spec fn wf(&self) -> bool {
        &&& frames_fit(self.frames@, self.clock)
        &&& self.depth == self.frames@.len()
    }

    /// No call in progress; the clock reads `now_ns`.
    pub fn new(now_ns: u64) -> (s: Self)
        ensures
            s.wf(),
            s.frames@.len() == 0,
            s.clock == now_ns,
    {
        CallStack { frames: Vec::new(), depth: 0, clock: now_ns }
    }

    /// The current call depth of this thread.
    pub fn current_call_depth(&self) -> (r: u32)
        ensures
            r == self.depth,
    {
        crate::stack::current_call_depth(&self.depth)
    }

    /// Enters a profiled call at clock reading `now_ns`.
    pub fn enter(
        &mut self,
        name: &str,
        file: &str,
        line: u32,
        module: &str,
        now_ns: u64,
        sp: Option<usize>,
        alloc: AllocSnapshot,
    )
        requires
            old(self).wf(),
            now_ns >= old(self).clock,
            old(self).frames@.len() < u32::MAX,
        ensures
            final(self).wf(),
            entered(*old(self), *final(self), name@, file@, line, module@, now_ns, sp, alloc),
    {
        let ghost old_frames = self.frames@;
        let depth = crate::stack::push_depth(&mut self.depth);
        self.frames.push(
            Frame {
                name: String::from_str(name),
                file: String::from_str(file),
                line,
                module: String::from_str(module),
                start_ns: now_ns,
                sp_at_entry: sp,
                alloc_at_entry: alloc,
                child_ns: 0,
                depth_at_entry: depth,
                children: Vec::new(),
            },
        );
        self.clock = now_ns;
        proof {
            let fs = self.frames@;
            assert(fs.drop_last() =~= old_frames);
            assert forall|i: int| 0 <= i < fs.len() implies #[trigger] fs[i].start_ns
                + fs[i].child_ns <= charge_limit(fs, now_ns, i) by {
                if i + 1 < fs.len() {
                    assert(fs[i] == old_frames[i]);
                    if i + 1 < old_frames.len() {
                        assert(fs[i + 1] == old_frames[i + 1]);
                    } else {
                        assert(charge_limit(old_frames, old(self).clock, i) <= now_ns);
                    }
                }
            }
        }
    }

    /// Leaves the innermost call at clock reading `now_ns`. Without a call
    /// in progress nothing happens. Otherwise the call's inclusive time is
    /// charged to its caller, its tree node is hung under the caller (or
    /// handed back as a root), and the measurements are returned.
    pub fn exit(
        &mut self,
        now_ns: u64,
        sp_now: Option<usize>,
        alloc_exit: AllocSnapshot,
        allocator_active: bool,
        cpu_cycles: Option<u64>,
    ) -> (r: Option<FrameExit>)
        requires
            old(self).wf(),
            now_ns >= old(self).clock,
        ensures
            final(self).wf(),
            exited(*old(self), *final(self), r, now_ns, sp_now, alloc_exit, allocator_active, cpu_cycles),
    {
        let ghost old_frames = self.frames@;
        let ghost old_clock = self.clock;
        if self.frames.len() == 0 {
            return None;
        }
        let f = self.frames.pop().unwrap();
        assert(f == old_frames.last());
        let n = self.frames.len();
        assert(f.start_ns + f.child_ns <= charge_limit(old_frames, old_clock, n as int));
        let total_ns: u64 = now_ns - f.start_ns;
        let self_ns: u64 = total_ns.saturating_sub(f.child_ns);
        let fsize: Option<u64> = match (f.sp_at_entry, sp_now) {
            (Some(e), Some(s)) => Some(frame_size(e, s)),
            _ => None,
        };
        crate::stack::pop_depth(&mut self.depth);
        let alloc_bytes: Option<u64> = if allocator_active {
            Some(alloc_exit.alloc_delta(&f.alloc_at_entry))
        } else {
            None
        };
        let Frame {
            name,
            file,
            line,
            module,
            start_ns,
            sp_at_entry: _,
            alloc_at_entry,
            child_ns: _,
            depth_at_entry,
            children,
        } = f;
        let node = CallTreeNode {
            name: name.clone(),
            call_count: 1,
            total_ns,
            children,
            file: file.clone(),
            line,
            duration_ns: total_ns,
            alloc_bytes,
            cpu_cycles,
        };
        let root: Option<CallTreeNode> = if n == 0 {
            Some(node)
        } else {
            let mut p = self.frames.pop().unwrap();
            let ghost pf = p;
            assert(pf == old_frames[n - 1]);
            assert(p.start_ns + p.child_ns <= f.start_ns);
            p.child_ns = p.child_ns + total_ns;
            p.children.push(node);
            assert(p.children@.drop_last() =~= pf.children@);
            self.frames.push(p);
            assert(self.frames@.take(n - 1) =~= old_frames.take(n - 1));
            None
        };
        self.clock = now_ns;
        proof {
            let fs = self.frames@;
            assert(fs.len() == n);
            assert forall|i: int| 0 <= i < fs.len() implies #[trigger] fs[i].start_ns
                + fs[i].child_ns <= charge_limit(fs, now_ns, i) by {
                if i + 1 < fs.len() {
                    assert(fs[i] == old_frames[i]);
                    assert(fs[i + 1].start_ns == old_frames[i + 1].start_ns);
                } else {
                    assert(charge_limit(old_frames, old_clock, i) == old_frames[i + 1].start_ns);
                }
            }
        }
        Some(
            FrameExit {
                name,
                file,
                line,
                module,
                start_ns,
                total_ns,
                self_ns,
                frame_size: fsize,
                recursion_depth: depth_at_entry,
                call_depth: self.depth,
                alloc_entry: alloc_at_entry,
                alloc_exit,
                cpu_cycles,
                root,
            },
        )
    }
}

/// Time is conserved along the stack: the child time charged to a call in
/// progress never exceeds the time that passed between its entry and its
/// callee's entry (or the latest clock reading), so a call's self time is
/// its inclusive time minus its children's, and never negative.
pub proof fn lemma_child_time_within_elapsed(s: CallStack, i: int)
    requires
        s.wf(),
        0 <= i < s.frames@.len(),
    ensures
        s.frames@[i].child_ns <= charge_limit(s.frames@, s.clock, i) - s.frames@[i].start_ns,
        s.frames@[i].start_ns <= s.clock,
    decreases s.frames@.len() - i,
{
    let fs = s.frames@;
    assert(fs[i].start_ns + fs[i].child_ns <= charge_limit(fs, s.clock, i));
    if i + 1 < fs.len() {
        lemma_child_time_within_elapsed(s, i + 1);
    }
}

/// A call entered and left with no profiled call in between: it yields its
/// measurements, its self time is all of its inclusive time (the time
/// between its entry and its exit), it is reported at the depth it was
/// entered at, and the stack returns to the depth it had. Its time is
/// charged to its caller, or it comes back as a call-tree root when it had
/// none.
pub proof fn lemma_enter_then_exit(
    s0: CallStack,
    s1: CallStack,
    s2: CallStack,
    r: Option<FrameExit>,
    name: Seq<char>,
    file: Seq<char>,
    line: u32,
    module: Seq<char>,
    t_enter: u64,
    sp: Option<usize>,
    alloc: AllocSnapshot,
    t_exit: u64,
    sp_now: Option<usize>,
    alloc_exit: AllocSnapshot,
    allocator_active: bool,
    cpu_cycles: Option<u64>,
)
    requires
        s0.wf(),
        s1.wf(),
        entered(s0, s1, name, file, line, module, t_enter, sp, alloc),
        exited(s1, s2, r, t_exit, sp_now, alloc_exit, allocator_active, cpu_cycles),
        t_exit >= t_enter,
    ensures
        r is Some,
        r->0.name@ == name,
        r->0.total_ns == t_exit - t_enter,
        r->0.self_ns == r->0.total_ns,
        r->0.recursion_depth == s0.depth + 1,
        s2.frames@.len() == s0.frames@.len(),
        s2.clock == t_exit,
        s0.frames@.len() == 0 ==> r->0.root is Some,
        s0.frames@.len() > 0 ==> ({
            let k = s0.frames@.len() - 1;
            &&& r->0.root is None
            &&& s2.frames@.take(k) == s0.frames@.take(k)
            &&& s2.frames@[k].child_ns == s0.frames@[k].child_ns + (t_exit - t_enter)
            &&& s2.frames@[k].children@.drop_last() == s0.frames@[k].children@
        }),
{
    let n = s0.frames@.len();
    assert(s1.frames@[n as int] == s1.frames@.last());
    if n > 0 {
        let k = n - 1;
        assert(s1.frames@[k as int] == s0.frames@[k as int]);
        assert(s1.frames@.take(k as int) =~= s0.frames@.take(k as int));
    }
}


/// `after` is the stack `before` once one profiled call has been entered
/// on top of it and left again, with no call in between, its exit yielding
/// `e`.
pub open spec fn nested_call(before: CallStack, after: CallStack, e: FrameExit) -> bool {
    exists|
        mid: CallStack,
        name: Seq<char>,
        file: Seq<char>,
        line: u32,
        module: Seq<char>,
        t_enter: u64,
        sp: Option<usize>,
        alloc: AllocSnapshot,
        t_exit: u64,
        sp_now: Option<usize>,
        alloc_exit: AllocSnapshot,
        allocator_active: bool,
        cpu_cycles: Option<u64>,
    |
        #![trigger entered(before, mid, name, file, line, module, t_enter, sp, alloc), exited(mid, after, Some(e), t_exit, sp_now, alloc_exit, allocator_active, cpu_cycles)]
        entered(before, mid, name, file, line, module, t_enter, sp, alloc) && exited(
            mid,
            after,
            Some(e),
            t_exit,
            sp_now,
            alloc_exit,
            allocator_active,
            cpu_cycles,
        )
}

/// The inclusive times of `exits`, added up.
pub open spec fn total_of(exits: Seq<FrameExit>) -> int
    decreases exits.len(),
{
    if exits.len() == 0 {
        0
    } else {
        total_of(exits.drop_last()) + exits.last().total_ns
    }
}

/// `nodes` are the call-tree nodes of the calls that yielded `exits`, in
/// the same order: one call each, under its name, lasting its inclusive
/// time.
pub open spec fn nodes_of_calls(nodes: Seq<CallTreeNode>, exits: Seq<FrameExit>) -> bool {
    &&& nodes.len() == exits.len()
    &&& forall|m: int|
        0 <= m < exits.len() ==> {
            &&& (#[trigger] nodes[m]).name == exits[m].name
            &&& nodes[m].call_count == 1
            &&& nodes[m].total_ns == exits[m].total_ns
            &&& nodes[m].duration_ns == exits[m].total_ns
        }
}

/// A call in progress that makes several profiled calls in turn, each left
/// before the next is entered (`stacks[m]` before the `m`-th, `stacks[m +
/// 1]` after it): the stack below it is untouched, it keeps its identity,
/// it is charged the inclusive times of its callees added up, and it holds
/// their tree nodes after those it had, in the order they were left.
pub proof fn lemma_calls_in_turn(stacks: Seq<CallStack>, exits: Seq<FrameExit>)
    requires
        stacks.len() == exits.len() + 1,
        stacks[0].frames@.len() > 0,
        forall|m: int| 0 <= m < exits.len() ==> nested_call(stacks[m], #[trigger] stacks[m + 1], exits[m]),
    ensures
        ({
            let s0 = stacks[0];
            let last = stacks.last();
            let k = s0.frames@.len() - 1;
            let p = s0.frames@[k];
            let q = last.frames@[k];
            &&& last.frames@.len() == s0.frames@.len()
            &&& last.frames@.take(k) == s0.frames@.take(k)
            &&& q.child_ns == p.child_ns + total_of(exits)
            &&& q.children@.len() == p.children@.len() + exits.len()
            &&& q.children@.take(p.children@.len() as int) == p.children@
            &&& nodes_of_calls(q.children@.skip(p.children@.len() as int), exits)
            &&& q.name == p.name && q.file == p.file && q.line == p.line && q.module == p.module
            &&& q.start_ns == p.start_ns && q.sp_at_entry == p.sp_at_entry
            &&& q.alloc_at_entry == p.alloc_at_entry && q.depth_at_entry == p.depth_at_entry
        }),
    decreases exits.len(),
{
    let s0 = stacks[0];
    let k = s0.frames@.len() - 1;
    let p = s0.frames@[k];
    if exits.len() == 0 {
        assert(p.children@.take(p.children@.len() as int) =~= p.children@);
        assert(p.children@.skip(p.children@.len() as int) =~= Seq::<CallTreeNode>::empty());
    } else {
        let n = exits.len() - 1;
        let st = stacks.drop_last();
        let ex = exits.drop_last();
        assert forall|m: int| 0 <= m < ex.len() implies nested_call(st[m], #[trigger] st[m + 1], ex[m]) by {
            assert(st[m] == stacks[m] && st[m + 1] == stacks[m + 1] && ex[m] == exits[m]);
        }
        lemma_calls_in_turn(st, ex);
        let before = stacks[n];
        let after = stacks[n + 1];
        assert(st.last() == before);
        assert(after == stacks.last());
        let e = exits[n];
        assert(nested_call(before, after, e));
        let (mid, name, file, line, module, t_enter, sp, alloc, t_exit, sp_now, alloc_exit, act, cyc) =
            choose|
            mid: CallStack,
            name: Seq<char>,
            file: Seq<char>,
            line: u32,
            module: Seq<char>,
            t_enter: u64,
            sp: Option<usize>,
            alloc: AllocSnapshot,
            t_exit: u64,
            sp_now: Option<usize>,
            alloc_exit: AllocSnapshot,
            allocator_active: bool,
            cpu_cycles: Option<u64>,
        |
            #![trigger entered(before, mid, name, file, line, module, t_enter, sp, alloc), exited(mid, after, Some(e), t_exit, sp_now, alloc_exit, allocator_active, cpu_cycles)]
            entered(before, mid, name, file, line, module, t_enter, sp, alloc) && exited(
                mid,
                after,
                Some(e),
                t_exit,
                sp_now,
                alloc_exit,
                allocator_active,
                cpu_cycles,
            );
        assert(entered(before, mid, name, file, line, module, t_enter, sp, alloc));
        assert(exited(mid, after, Some(e), t_exit, sp_now, alloc_exit, act, cyc));
        let pb = before.frames@[k];
        assert(mid.frames@[k] == pb) by {
            assert(mid.frames@.drop_last()[k] == mid.frames@[k]);
        }
        assert(mid.frames@.take(k) =~= before.frames@.take(k)) by {
            assert forall|x: int| 0 <= x < k implies mid.frames@.take(k)[x] == before.frames@.take(k)[x] by {
                assert(mid.frames@.drop_last()[x] == mid.frames@[x]);
            }
        }
        let f = mid.frames@[k + 1];
        let q = after.frames@[k];
        let c0 = p.children@.len() as int;
        let nodes = q.children@.skip(c0);
        let prev_nodes = pb.children@.skip(c0);
        assert(pb.children@.take(c0) == p.children@);
        assert(q.children@.drop_last() == pb.children@);
        assert(q.children@.take(c0) =~= p.children@) by {
            assert forall|x: int| 0 <= x < c0 implies q.children@.take(c0)[x] == p.children@[x] by {
                assert(q.children@.drop_last()[x] == q.children@[x]);
                assert(pb.children@.take(c0)[x] == pb.children@[x]);
            }
        }
        assert(nodes.drop_last() =~= prev_nodes);
        assert(nodes.last() == q.children@.last());
        assert(node_of(q.children@.last(), f, e.total_ns, alloc_exit, act, cyc));
        assert(nodes_of_calls(nodes, exits)) by {
            assert forall|m: int| 0 <= m < exits.len() implies {
                &&& (#[trigger] nodes[m]).name == exits[m].name
                &&& nodes[m].call_count == 1
                &&& nodes[m].total_ns == exits[m].total_ns
                &&& nodes[m].duration_ns == exits[m].total_ns
            } by {
                if m < n {
                    assert(nodes[m] == prev_nodes[m]);
                    assert(ex[m] == exits[m]);
                    assert(nodes_of_calls(prev_nodes, ex));
                } else {
                    assert(nodes[m] == nodes.last());
                }
            }
        }
        assert(exits.drop_last() == ex);
    }
}


/// Leaving a call that was entered fresh and then made several profiled
/// calls in turn: its self time is its inclusive time less the inclusive
/// times of its callees added up, and its tree node (a root when it had no
/// caller, else the newest child of its caller) is one call under its name
/// lasting its inclusive time, whose children are its callees' nodes in
/// the order they were left.
pub proof fn lemma_parent_with_children(
    stacks: Seq<CallStack>,
    exits: Seq<FrameExit>,
    end: CallStack,
    r: Option<FrameExit>,
    now_ns: u64,
    sp_now: Option<usize>,
    alloc_exit: AllocSnapshot,
    allocator_active: bool,
    cpu_cycles: Option<u64>,
)
    requires
        stacks.len() == exits.len() + 1,
        stacks[0].frames@.len() > 0,
        stacks[0].frames@.last().child_ns == 0,
        stacks[0].frames@.last().children@.len() == 0,
        forall|m: int| 0 <= m < exits.len() ==> nested_call(stacks[m], #[trigger] stacks[m + 1], exits[m]),
        exited(stacks.last(), end, r, now_ns, sp_now, alloc_exit, allocator_active, cpu_cycles),
    ensures
        r is Some,
        r->0.name == stacks[0].frames@.last().name,
        r->0.total_ns == now_ns - stacks[0].frames@.last().start_ns,
        r->0.self_ns == r->0.total_ns - total_of(exits),
        end.frames@.len() == stacks[0].frames@.len() - 1,
        ({
            let nd = if stacks[0].frames@.len() == 1 {
                r->0.root->0
            } else {
                end.frames@[stacks[0].frames@.len() - 2].children@.last()
            };
            &&& stacks[0].frames@.len() == 1 ==> r->0.root is Some
            &&& nd.name == r->0.name
            &&& nd.call_count == 1
            &&& nd.duration_ns == r->0.total_ns
            &&& nodes_of_calls(nd.children@, exits)
        }),
{
    lemma_calls_in_turn(stacks, exits);
    let k = stacks[0].frames@.len() - 1;
    let p = stacks[0].frames@[k];
    let q = stacks.last().frames@[k];
    assert(stacks[0].frames@.last() == p);
    assert(q.children@.skip(0) =~= q.children@);
    assert(stacks.last().frames@[k] == q);
}

} // verus!
