//! Async span accounting: a span is polled (entered) and suspended (exited)
//! any number of times before it closes. Only the time between entering and
//! exiting counts as active; the time from creation to the first poll is
//! the scheduling latency. Times are clock readings in nanoseconds.

use vstd::prelude::*;
use vstd::string::StringExecFns;
use crate::memory::{sat_sub, wrap_add, add_wrapping};
use crate::records::{TimingAccumulator, fresh_timing, recorded};

verus! {

/// At most this many task identifiers are kept per span name.
pub const MAX_TASK_IDS: usize = 100;

/// The state of one live span.
pub struct SpanTimings {
    pub created_at: u64,
    pub first_poll_at: Option<u64>,
    pub entered_at: Option<u64>,
    pub active_ns_accum: u64,
    pub poll_count: u64,
    pub suspension_count: u64,
    pub task_id: u64,
}

/// Takes the next task identifier from `counter` (which starts at 1).
pub fn next_task_id(counter: &mut u64) -> (id: u64)
    ensures
        id == *old(counter),
        *final(counter) == wrap_add(*old(counter), 1),
{
    let id = *counter;
    *counter = add_wrapping(*counter, 1);
    id
}

impl SpanTimings {
    /// A span created at `now_ns`, not yet polled.
    pub fn new(now_ns: u64, task_id: u64) -> (t: Self)
        ensures
            t.created_at == now_ns,
            t.first_poll_at is None,
            t.entered_at is None,
            t.active_ns_accum == 0 && t.poll_count == 0 && t.suspension_count == 0,
            t.task_id == task_id,
    {
        SpanTimings {
            created_at: now_ns,
            first_poll_at: None,
            entered_at: None,
            active_ns_accum: 0,
            poll_count: 0,
            suspension_count: 0,
            task_id,
        }
    }

    /// The span is polled at `now_ns`: the first poll is remembered, every
    /// later one follows a suspension.
    pub fn on_enter(&mut self, now_ns: u64)
        ensures
            final(self).first_poll_at == (match old(self).first_poll_at {
                Some(f) => Some(f),
                None => Some(now_ns),
            }),
            final(self).suspension_count == (if old(self).first_poll_at is Some {
                wrap_add(old(self).suspension_count, 1)
            } else {
                old(self).suspension_count
            }),
            final(self).entered_at == Some(now_ns),
            final(self).poll_count == wrap_add(old(self).poll_count, 1),
            final(self).created_at == old(self).created_at,
            final(self).active_ns_accum == old(self).active_ns_accum,
            final(self).task_id == old(self).task_id,
    {
        if self.first_poll_at.is_none() {
            self.first_poll_at = Some(now_ns);
        } else {
            self.suspension_count = add_wrapping(self.suspension_count, 1);
        }
        self.entered_at = Some(now_ns);
        self.poll_count = add_wrapping(self.poll_count, 1);
    }

    /// The poll in progress ends at `now_ns`; its duration counts as active
    /// time. Without a poll in progress nothing changes.
    pub fn on_exit(&mut self, now_ns: u64)
        ensures
            final(self).entered_at is None,
            final(self).active_ns_accum == (match old(self).entered_at {
                Some(e) => wrap_add(old(self).active_ns_accum, sat_sub(now_ns, e)),
                None => old(self).active_ns_accum,
            }),
            final(self).created_at == old(self).created_at,
            final(self).first_poll_at == old(self).first_poll_at,
            final(self).poll_count == old(self).poll_count,
            final(self).suspension_count == old(self).suspension_count,
            final(self).task_id == old(self).task_id,
    {
        match self.entered_at {
            Some(e) => {
                self.active_ns_accum = add_wrapping(
                    self.active_ns_accum,
                    now_ns.saturating_sub(e),
                );
            },
            None => {},
        }
        self.entered_at = None;
    }
}

/// What all closed spans of one name add up to.
pub struct SpanAggregate {
    pub span_count: u64,
    pub total_polls: u64,
    pub total_suspensions: u64,
    pub max_polls: u64,
    pub active_timing: TimingAccumulator,
    pub wall_timing: TimingAccumulator,
    pub first_poll_timing: TimingAccumulator,
    pub file: Option<String>,
    pub line: Option<u32>,
    pub module: Option<String>,
    pub task_ids: Vec<u64>,
}

/// `a` is the aggregate of a name before any span of it closed, at the
/// given source location.
pub open spec fn fresh_aggregate(a: SpanAggregate, file: Option<String>, line: Option<u32>, module: Option<String>) -> bool {
    &&& a.wf()
    &&& a.span_count == 0 && a.total_polls == 0 && a.total_suspensions == 0 && a.max_polls == 0
    &&& fresh_timing(a.active_timing) && fresh_timing(a.wall_timing) && fresh_timing(a.first_poll_timing)
    &&& a.file == file && a.line == line && a.module == module
    &&& a.task_ids@.len() == 0
}

/// `b` is `a` with the span `t`, closed at `now`, folded in: its polls and
/// suspensions, its active time, its wall time since creation, its
/// scheduling latency if it was ever polled, and its task id while fewer
/// than a hundred are kept.
pub open spec fn folded(a: SpanAggregate, b: SpanAggregate, t: SpanTimings, now: u64) -> bool {
    let wall = sat_sub(now, t.created_at);
    &&& b.span_count == wrap_add(a.span_count, 1)
    &&& b.total_polls == wrap_add(a.total_polls, t.poll_count)
    &&& b.total_suspensions == wrap_add(a.total_suspensions, t.suspension_count)
    &&& b.max_polls == (if t.poll_count > a.max_polls {
        t.poll_count
    } else {
        a.max_polls
    })
    &&& recorded(a.active_timing, b.active_timing, t.active_ns_accum, t.active_ns_accum)
    &&& recorded(a.wall_timing, b.wall_timing, wall, wall)
    &&& match t.first_poll_at {
        Some(fp) => recorded(
            a.first_poll_timing,
            b.first_poll_timing,
            sat_sub(fp, t.created_at),
            sat_sub(fp, t.created_at),
        ),
        None => b.first_poll_timing == a.first_poll_timing,
    }
    &&& b.task_ids@ == (if a.task_ids@.len() < MAX_TASK_IDS {
        a.task_ids@.push(t.task_id)
    } else {
        a.task_ids@
    })
    &&& b.file == a.file && b.line == a.line && b.module == a.module
}

impl SpanAggregate {
    pub open spec fn wf(&self) -> bool {
        &&& self.active_timing.wf()
        &&& self.wall_timing.wf()
        &&& self.first_poll_timing.wf()
        &&& self.task_ids@.len() <= MAX_TASK_IDS
    }

    /// No span closed yet.
    pub fn new(file: Option<String>, line: Option<u32>, module: Option<String>) -> (a: Self)
        ensures
            fresh_aggregate(a, file, line, module),
    {
        SpanAggregate {
            span_count: 0,
            total_polls: 0,
            total_suspensions: 0,
            max_polls: 0,
            active_timing: TimingAccumulator::new(),
            wall_timing: TimingAccumulator::new(),
            first_poll_timing: TimingAccumulator::new(),
            file,
            line,
            module,
            task_ids: Vec::new(),
        }
    }

    /// Folds in a span closed at `now_ns`: its active time, its wall time
    /// since creation and, if it was ever polled, its scheduling latency.
    pub fn record_closed(&mut self, t: &SpanTimings, now_ns: u64)
        requires
            old(self).wf(),
        ensures
            final(self).wf(),
            folded(*old(self), *final(self), *t, now_ns),
    {
        let wall_ns = now_ns.saturating_sub(t.created_at);
        self.span_count = add_wrapping(self.span_count, 1);
        self.total_polls = add_wrapping(self.total_polls, t.poll_count);
        self.total_suspensions = add_wrapping(self.total_suspensions, t.suspension_count);
        if t.poll_count > self.max_polls {
            self.max_polls = t.poll_count;
        }
        self.active_timing.record(t.active_ns_accum, t.active_ns_accum);
        self.wall_timing.record(wall_ns, wall_ns);
        match t.first_poll_at {
            Some(fp) => {
                let lat = fp.saturating_sub(t.created_at);
                self.first_poll_timing.record(lat, lat);
            },
            None => {},
        }
        if self.task_ids.len() < MAX_TASK_IDS {
            self.task_ids.push(t.task_id);
        }
    }
}

/// The aggregates of all span names seen.
pub struct AsyncAggregates {
    /// Per span name, each name once, in order of first sight.
    pub spans: Vec<(String, SpanAggregate)>,
}

pub open spec fn span_names(s: Seq<(String, SpanAggregate)>) -> Seq<Seq<char>> {
    s.map_values(|p: (String, SpanAggregate)| p.0@)
}

impl AsyncAggregates {
    pub open spec fn wf(&self) -> bool {
        &&& span_names(self.spans@).no_duplicates()
        &&& forall|i: int| 0 <= i < self.spans@.len() ==> (#[trigger] self.spans@[i]).1.wf()
    }

    /// No span seen.
    pub fn new() -> (a: Self)
        ensures
            a.wf(),
            a.spans@.len() == 0,
    {
        let a = AsyncAggregates { spans: Vec::new() };
        assert(span_names(a.spans@) =~= Seq::<Seq<char>>::empty());
        a
    }

    fn find(&self, name: &String) -> (r: Option<usize>)
        requires
            span_names(self.spans@).no_duplicates(),
        ensures
            r is None ==> !span_names(self.spans@).contains(name@),
            r matches Some(i) ==> i < self.spans@.len() && span_names(self.spans@).contains(
                name@,
            ) && span_names(self.spans@).index_of(name@) == i as int,
    {
        let ghost names = span_names(self.spans@);
        let mut i: usize = 0;
        while i < self.spans.len()
            invariant
                i <= self.spans@.len(),
                names == span_names(self.spans@),
                names.no_duplicates(),
                forall|k: int| 0 <= k < i ==> names[k] != name@,
            decreases self.spans@.len() - i,
        {
            assert(names[i as int] == self.spans@[i as int].0@);
            if self.spans[i].0 == *name {
                assert(names.contains(name@));
                assert(names.index_of(name@) == i as int) by {
                    let c = names.index_of(name@);
                    assert(names[c] == name@);
                }
                return Some(i);
            }
            i = i + 1;
        }
        None
    }

    /// A span named `name` was created: its name gets an aggregate, with the
    /// given source location, the first time it is seen.
    pub fn on_new_span(
        &mut self,
        name: &str,
        file: Option<String>,
        line: Option<u32>,
        module: Option<String>,
    )
        requires
            old(self).wf(),
        ensures
            final(self).wf(),
            span_names(old(self).spans@).contains(name@) ==> final(self).spans@ == old(
                self,
            ).spans@,
            !span_names(old(self).spans@).contains(name@) ==> {
                let a = final(self).spans@.last().1;
                &&& final(self).spans@.drop_last() == old(self).spans@
                &&& final(self).spans@.len() == old(self).spans@.len() + 1
                &&& final(self).spans@.last().0@ == name@
                &&& fresh_aggregate(a, file, line, module)
            },
    {
        let n = String::from_str(name);
        let ghost before = self.spans@;
        match self.find(&n) {
            Some(_) => {},
            None => {
                self.spans.push((n, SpanAggregate::new(file, line, module)));
                proof {
                    let names = span_names(self.spans@);
                    assert(self.spans@.drop_last() =~= before);
                    assert(names =~= span_names(before).push(name@));
                    assert forall|a: int, b: int|
                        0 <= a < names.len() && 0 <= b < names.len() && a != b implies names[a]
                        != names[b] by {
                        if a < before.len() && b == before.len() {
                            assert(span_names(before).contains(names[a]));
                        } else if b < before.len() && a == before.len() {
                            assert(span_names(before).contains(names[b]));
                        }
                    }
                    assert forall|i: int| 0 <= i < self.spans@.len() implies (#[trigger] self.spans@[
                        i
                    ]).1.wf() by {
                        if i < before.len() {
                            assert(self.spans@[i] == before[i]);
                        }
                    }
                }
            },
        }
    }

    /// A span named `name` closed at `now_ns`: it is folded into its name's
    /// aggregate, if that name was seen.
    pub fn on_close(&mut self, name: &str, t: &SpanTimings, now_ns: u64)
        requires
            old(self).wf(),
        ensures
            final(self).wf(),
            final(self).spans@.len() == old(self).spans@.len(),
            span_names(final(self).spans@) == span_names(old(self).spans@),
            !span_names(old(self).spans@).contains(name@) ==> final(self).spans@ == old(
                self,
            ).spans@,
            span_names(old(self).spans@).contains(name@) ==> {
                let p = span_names(old(self).spans@).index_of(name@);
                let a = old(self).spans@[p].1;
                let b = final(self).spans@[p].1;
                &&& folded(a, b, *t, now_ns)
                &&& forall|j: int|
                    0 <= j < old(self).spans@.len() && j != p ==> #[trigger] final(self).spans@[j]
                        == old(self).spans@[j]
            },
    {
        let n = String::from_str(name);
        let ghost before = self.spans@;
        match self.find(&n) {
            Some(i) => {
                let (k, mut a) = self.spans.remove(i);
                assert(a.wf()) by {
                    assert(before[i as int].1.wf());
                }
                a.record_closed(t, now_ns);
                self.spans.insert(i, (k, a));
                proof {
                    assert(span_names(self.spans@) =~= span_names(before));
                    assert forall|j: int| 0 <= j < self.spans@.len() implies (#[trigger] self.spans@[
                        j
                    ]).1.wf() by {
                        if j != i {
                            assert(self.spans@[j] == before[j]);
                        }
                    }
                }
            },
            None => {},
        }
    }
}

/// The summary of one span name.
pub struct AsyncTaskRecord {
    pub name: String,
    pub total_active_ns: u64,
    pub total_idle_ns: u64,
    pub poll_count: u64,
}

/// The summary of every span name, in order of first sight: its active
/// time, the rest of its wall time as idle time, and its polls.
pub fn collect_async_tasks(aggs: &AsyncAggregates) -> (r: Vec<AsyncTaskRecord>)
    ensures
        r@.len() == aggs.spans@.len(),
        forall|i: int|
            0 <= i < r@.len() ==> {
                let a = aggs.spans@[i].1;
                &&& (#[trigger] r@[i]).name@ == aggs.spans@[i].0@
                &&& r@[i].total_active_ns == a.active_timing.total_ns
                &&& r@[i].total_idle_ns == sat_sub(
                    a.wall_timing.total_ns,
                    a.active_timing.total_ns,
                )
                &&& r@[i].poll_count == a.total_polls
            },
{
    let mut out: Vec<AsyncTaskRecord> = Vec::new();
    let mut i: usize = 0;
    while i < aggs.spans.len()
        invariant
            i <= aggs.spans@.len(),
            out@.len() == i,
            forall|k: int|
                0 <= k < i ==> {
                    let a = aggs.spans@[k].1;
                    &&& (#[trigger] out@[k]).name@ == aggs.spans@[k].0@
                    &&& out@[k].total_active_ns == a.active_timing.total_ns
                    &&& out@[k].total_idle_ns == sat_sub(
                        a.wall_timing.total_ns,
                        a.active_timing.total_ns,
                    )
                    &&& out@[k].poll_count == a.total_polls
                },
        decreases aggs.spans@.len() - i,
    {
        let (name, a) = (&aggs.spans[i].0, &aggs.spans[i].1);
        out.push(
            AsyncTaskRecord {
                name: name.clone(),
                total_active_ns: a.active_timing.total_ns,
                total_idle_ns: a.wall_timing.total_ns.saturating_sub(a.active_timing.total_ns),
                poll_count: a.total_polls,
            },
        );
        i = i + 1;
    }
    out
}

} // verus!
