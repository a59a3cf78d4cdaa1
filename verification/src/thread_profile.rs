//! Per-thread breakdown of profiled calls: which thread ran which function
//! for how long, and which functions ran on more than one thread.

use vstd::prelude::*;
use vstd::string::StringExecFns;
use crate::memory::{wrap_add, add_wrapping};
use crate::order::{is_desc_order, order_desc};

verus! {

/// The number of the calling thread: taken from `counter` (which starts at
/// 1) the first time the thread asks, and the same ever after.
pub fn current_thread_num(slot: &mut Option<u64>, counter: &mut u64) -> (n: u64)
    ensures
        *old(slot) matches Some(m) ==> n == m && *final(slot) == *old(slot) && *final(counter)
            == *old(counter),
        *old(slot) is None ==> n == *old(counter) && *final(slot) == Some(n) && *final(counter)
            == wrap_add(*old(counter), 1),
{
    match *slot {
        Some(m) => m,
        None => {
            let n = *counter;
            *counter = add_wrapping(*counter, 1);
            *slot = Some(n);
            n
        },
    }
}

/// The name of the calling thread: its own name, or `<unnamed>`, fixed the
/// first time the thread asks.
pub fn current_thread_name(slot: &mut Option<String>, own_name: Option<&str>) -> (s: String)
    ensures
        *old(slot) matches Some(m) ==> s@ == m@ && *final(slot) == *old(slot),
        *old(slot) is None ==> (*final(slot) matches Some(m) && s@ == m@ && s@ == (match own_name {
            Some(o) => o@,
            None => "<unnamed>"@,
        })),
{
    match slot {
        Some(m) => m.clone(),
        None => {
            let name = match own_name {
                Some(o) => String::from_str(o),
                None => String::from_str("<unnamed>"),
            };
            let r = name.clone();
            *slot = Some(name);
            r
        },
    }
}

/// What one thread spent in one function.
pub struct ThreadFnStats {
    pub name: String,
    pub call_count: u64,
    pub total_ns: u64,
    pub self_ns: u64,
}

/// What one thread ran.
pub struct ThreadEntry {
    pub thread_id: u64,
    pub thread_name: String,
    /// Per function, each function once, in order of first call.
    pub fns: Vec<ThreadFnStats>,
    /// Self time of all calls on this thread.
    pub active_ns: u64,
}

/// The per-thread tables and whether they are being filled.
pub struct ThreadProfiler {
    pub enabled: bool,
    /// Each thread once, in order of first call.
    pub threads: Vec<ThreadEntry>,
}

pub open spec fn thread_ids(ts: Seq<ThreadEntry>) -> Seq<u64> {
    ts.map_values(|t: ThreadEntry| t.thread_id)
}

pub open spec fn fn_names(fs: Seq<ThreadFnStats>) -> Seq<Seq<char>> {
    fs.map_values(|f: ThreadFnStats| f.name@)
}

/// The statistics of function `name` on a thread, if it ran there.
pub open spec fn stats_of(fs: Seq<ThreadFnStats>, name: Seq<char>) -> Option<ThreadFnStats> {
    if fn_names(fs).contains(name) {
        Some(fs[fn_names(fs).index_of(name)])
    } else {
        None
    }
}

impl ThreadProfiler {
    pub open spec fn wf(&self) -> bool {
        &&& thread_ids(self.threads@).no_duplicates()
        &&& forall|i: int|
            0 <= i < self.threads@.len() ==> fn_names((#[trigger] self.threads@[i]).fns@).no_duplicates()
    }

    /// Disabled, nothing recorded.
    pub fn new() -> (p: Self)
        ensures
            p.wf(),
            !p.enabled,
            p.threads@.len() == 0,
    {
        let p = ThreadProfiler { enabled: false, threads: Vec::new() };
        assert(thread_ids(p.threads@) =~= Seq::<u64>::empty());
        p
    }

    /// Starts recording calls per thread.
    pub fn enable(&mut self)
        ensures
            final(self).enabled,
            final(self).threads == old(self).threads,
    {
        self.enabled = true;
    }

    /// Whether calls are recorded per thread.
    pub fn is_enabled(&self) -> (r: bool)
        ensures
            r == self.enabled,
    {
        self.enabled
    }
}

fn find_thread(ts: &Vec<ThreadEntry>, tid: u64) -> (r: Option<usize>)
    requires
        thread_ids(ts@).no_duplicates(),
    ensures
        r is None ==> !thread_ids(ts@).contains(tid),
        r matches Some(i) ==> i < ts@.len() && thread_ids(ts@).contains(tid) && thread_ids(
            ts@,
        ).index_of(tid) == i as int,
{
    let ghost ids = thread_ids(ts@);
    let mut i: usize = 0;
    while i < ts.len()
        invariant
            i <= ts@.len(),
            ids == thread_ids(ts@),
            ids.no_duplicates(),
            forall|k: int| 0 <= k < i ==> ids[k] != tid,
        decreases ts@.len() - i,
    {
        assert(ids[i as int] == ts@[i as int].thread_id);
        if ts[i].thread_id == tid {
            assert(ids.contains(tid));
            assert(ids.index_of(tid) == i as int) by {
                let c = ids.index_of(tid);
                assert(ids[c] == tid);
            }
            return Some(i);
        }
        i = i + 1;
    }
    None
}

fn find_fn(fs: &Vec<ThreadFnStats>, name: &String) -> (r: Option<usize>)
    requires
        fn_names(fs@).no_duplicates(),
    ensures
        r is None ==> !fn_names(fs@).contains(name@),
        r matches Some(i) ==> i < fs@.len() && fn_names(fs@).contains(name@) && fn_names(
            fs@,
        ).index_of(name@) == i as int,
{
    let ghost names = fn_names(fs@);
    let mut i: usize = 0;
    while i < fs.len()
        invariant
            i <= fs@.len(),
            names == fn_names(fs@),
            names.no_duplicates(),
            forall|k: int| 0 <= k < i ==> names[k] != name@,
        decreases fs@.len() - i,
    {
        assert(names[i as int] == fs@[i as int].name@);
        if fs[i].name == *name {
            assert(names.contains(name@));
            assert(names.index_of(name@) == i as int) by {
                let c = names.index_of(name@);
                assert(names[c] == name@);
            }
            return Some(i);
        }
        i = i + 1;
    }
    None
}

/// The function table of a thread after one more call of `name`.
pub open spec fn fns_after(fs: Seq<ThreadFnStats>, name: Seq<char>, total_ns: u64, self_ns: u64, new: Seq<
    ThreadFnStats,
>) -> bool {
    let p = if fn_names(fs).contains(name) {
        fn_names(fs).index_of(name)
    } else {
        fs.len() as int
    };
    let (c0, t0, s0) = if p < fs.len() {
        (fs[p].call_count, fs[p].total_ns, fs[p].self_ns)
    } else {
        (0u64, 0u64, 0u64)
    };
    &&& new.len() == (if p < fs.len() {
        fs.len()
    } else {
        fs.len() + 1
    })
    &&& new[p].name@ == name
    &&& new[p].call_count == wrap_add(c0, 1)
    &&& new[p].total_ns == wrap_add(t0, total_ns)
    &&& new[p].self_ns == wrap_add(s0, self_ns)
    &&& forall|j: int| 0 <= j < fs.len() && j != p ==> #[trigger] new[j] == fs[j]
}

fn add_to_fns(fs: &mut Vec<ThreadFnStats>, name: &str, total_ns: u64, self_ns: u64)
    requires
        fn_names(old(fs)@).no_duplicates(),
    ensures
        fn_names(final(fs)@).no_duplicates(),
        fns_after(old(fs)@, name@, total_ns, self_ns, final(fs)@),
{
    let ghost before = fs@;
    let n = String::from_str(name);
    match find_fn(fs, &n) {
        Some(i) => {
            let mut st = fs.remove(i);
            st.call_count = add_wrapping(st.call_count, 1);
            st.total_ns = add_wrapping(st.total_ns, total_ns);
            st.self_ns = add_wrapping(st.self_ns, self_ns);
            fs.insert(i, st);
            assert(fn_names(fs@) =~= fn_names(before));
        },
        None => {
            fs.push(ThreadFnStats { name: n, call_count: 1, total_ns, self_ns });
            proof {
                let names = fn_names(fs@);
                assert(names =~= fn_names(before).push(name@));
                assert forall|a: int, b: int|
                    0 <= a < names.len() && 0 <= b < names.len() && a != b implies names[a]
                    != names[b] by {
                    if a < before.len() && b == before.len() {
                        assert(fn_names(before).contains(names[a]));
                    } else if b < before.len() && a == before.len() {
                        assert(fn_names(before).contains(names[b]));
                    }
                }
            }
        },
    }
}

/// Records one finished call of `fn_name` on thread `tid` (named
/// `thread_name` when it is first seen). Does nothing while disabled.
pub fn record_call(
    tp: &mut ThreadProfiler,
    tid: u64,
    thread_name: &str,
    fn_name: &str,
    total_ns: u64,
    self_ns: u64,
)
    requires
        old(tp).wf(),
    ensures
        final(tp).wf(),
        final(tp).enabled == old(tp).enabled,
        !old(tp).enabled ==> final(tp).threads == old(tp).threads,
        old(tp).enabled ==> {
            let olds = old(tp).threads@;
            let news = final(tp).threads@;
            let p = if thread_ids(olds).contains(tid) {
                thread_ids(olds).index_of(tid)
            } else {
                olds.len() as int
            };
            &&& news.len() == (if p < olds.len() {
                olds.len()
            } else {
                olds.len() + 1
            })
            &&& news[p].thread_id == tid
            &&& p == olds.len() ==> news[p].thread_name@ == thread_name@ && fns_after(
                Seq::empty(),
                fn_name@,
                total_ns,
                self_ns,
                news[p].fns@,
            ) && news[p].active_ns == self_ns
            &&& p < olds.len() ==> news[p].thread_name == olds[p].thread_name && fns_after(
                olds[p].fns@,
                fn_name@,
                total_ns,
                self_ns,
                news[p].fns@,
            ) && news[p].active_ns == wrap_add(olds[p].active_ns, self_ns)
            &&& forall|j: int| 0 <= j < olds.len() && j != p ==> #[trigger] news[j] == olds[j]
        },
{
    if !tp.enabled {
        return;
    }
    let ghost olds = tp.threads@;
    match find_thread(&tp.threads, tid) {
        Some(i) => {
            let mut e = tp.threads.remove(i);
            add_to_fns(&mut e.fns, fn_name, total_ns, self_ns);
            e.active_ns = add_wrapping(e.active_ns, self_ns);
            tp.threads.insert(i, e);
            proof {
                let news = tp.threads@;
                assert(thread_ids(news) =~= thread_ids(olds));
                assert forall|j: int| 0 <= j < news.len() implies fn_names(
                    (#[trigger] news[j]).fns@,
                ).no_duplicates() by {
                    if j != i {
                        assert(news[j] == olds[j]);
                    }
                }
            }
        },
        None => {
            let mut fns: Vec<ThreadFnStats> = Vec::new();
            assert(fn_names(fns@) =~= Seq::<Seq<char>>::empty());
            add_to_fns(&mut fns, fn_name, total_ns, self_ns);
            tp.threads.push(
                ThreadEntry {
                    thread_id: tid,
                    thread_name: String::from_str(thread_name),
                    fns,
                    active_ns: self_ns,
                },
            );
            proof {
                let news = tp.threads@;
                let ids = thread_ids(news);
                assert(ids =~= thread_ids(olds).push(tid));
                assert forall|a: int, b: int|
                    0 <= a < ids.len() && 0 <= b < ids.len() && a != b implies ids[a] != ids[b] by {
                    if a < olds.len() && b == olds.len() {
                        assert(thread_ids(olds).contains(ids[a]));
                    } else if b < olds.len() && a == olds.len() {
                        assert(thread_ids(olds).contains(ids[b]));
                    }
                }
                assert forall|j: int| 0 <= j < news.len() implies fn_names(
                    (#[trigger] news[j]).fns@,
                ).no_duplicates() by {
                    if j < olds.len() {
                        assert(news[j] == olds[j]);
                    }
                }
            }
        },
    }
}

// ─── report ─────────────────────────────────────────────────────────────────

/// A function that ran on more than one thread.
pub struct CrossThreadFn {
    pub name: String,
    pub thread_count: u32,
    pub total_ns_across_threads: u64,
    /// Whether it ran on more than one thread (always, for a reported one).
    pub concurrent: bool,
}

/// One thread of the report, its functions longest first.
pub struct ThreadCounts {
    pub thread_id: u64,
    pub thread_name: String,
    pub active_ns: u64,
    pub functions: Vec<ThreadFnStats>,
}

/// The integer part of the thread report.
pub struct ThreadReportCounts {
    /// Busiest thread first.
    pub threads: Vec<ThreadCounts>,
    /// Longest total first.
    pub cross_thread_fns: Vec<CrossThreadFn>,
    /// The name of the busiest thread, if any thread ran.
    pub busiest_thread: Option<String>,
}

/// The total times of `fs`, in order.
pub open spec fn totals(fs: Seq<ThreadFnStats>) -> Seq<u64> {
    fs.map_values(|f: ThreadFnStats| f.total_ns)
}

/// The active times of `ts`, in order.
pub open spec fn actives(ts: Seq<ThreadEntry>) -> Seq<u64> {
    ts.map_values(|t: ThreadEntry| t.active_ns)
}

fn copy_stats(f: &ThreadFnStats) -> (r: ThreadFnStats)
    ensures
        r.name@ == f.name@,
        r.call_count == f.call_count,
        r.total_ns == f.total_ns,
        r.self_ns == f.self_ns,
{
    ThreadFnStats {
        name: f.name.clone(),
        call_count: f.call_count,
        total_ns: f.total_ns,
        self_ns: f.self_ns,
    }
}

/// Same statistics, names compared by content.
pub open spec fn same_stats(a: ThreadFnStats, b: ThreadFnStats) -> bool {
    a.name@ == b.name@ && a.call_count == b.call_count && a.total_ns == b.total_ns && a.self_ns
        == b.self_ns
}

/// `r` holds the statistics of `fs`, longest total first, in their
/// given order among equal totals.
pub open spec fn is_sorted_copy(r: Seq<ThreadFnStats>, fs: Seq<ThreadFnStats>) -> bool {
    &&& r.len() == fs.len()
    &&& exists|order: Seq<usize>|
        is_desc_order(totals(fs), order) && forall|k: int|
            0 <= k < r.len() ==> same_stats(#[trigger] r[k], fs[order[k] as int])
}

/// A thread's functions, longest total first (stable among equal totals).
pub fn functions_by_total(fs: &Vec<ThreadFnStats>) -> (r: Vec<ThreadFnStats>)
    ensures
        is_sorted_copy(r@, fs@),
{
    let mut keys: Vec<u64> = Vec::new();
    let mut i: usize = 0;
    while i < fs.len()
        invariant
            i <= fs@.len(),
            keys@ == totals(fs@).take(i as int),
        decreases fs@.len() - i,
    {
        keys.push(fs[i].total_ns);
        i = i + 1;
        assert(keys@ =~= totals(fs@).take(i as int));
    }
    assert(keys@ =~= totals(fs@));
    let order = order_desc(&keys);
    let mut out: Vec<ThreadFnStats> = Vec::new();
    let mut k: usize = 0;
    while k < order.len()
        invariant
            k <= order@.len(),
            is_desc_order(totals(fs@), order@),
            out@.len() == k,
            forall|j: int| 0 <= j < k ==> same_stats(#[trigger] out@[j], fs@[order@[j] as int]),
        decreases order@.len() - k,
    {
        out.push(copy_stats(&fs[order[k]]));
        k = k + 1;
    }
    out
}


/// The function names of all threads, thread by thread.
pub open spec fn all_fn_names(ts: Seq<ThreadEntry>) -> Seq<Seq<char>>
    decreases ts.len(),
{
    if ts.len() == 0 {
        Seq::empty()
    } else {
        all_fn_names(ts.drop_last()) + fn_names(ts.last().fns@)
    }
}

/// `s` without repetitions, each item where it first occurs.
pub open spec fn distinct(s: Seq<Seq<char>>) -> Seq<Seq<char>>
    decreases s.len(),
{
    if s.len() == 0 {
        Seq::empty()
    } else if distinct(s.drop_last()).contains(s.last()) {
        distinct(s.drop_last())
    } else {
        distinct(s.drop_last()).push(s.last())
    }
}

/// On how many threads function `name` ran.
pub open spec fn threads_running(ts: Seq<ThreadEntry>, name: Seq<char>) -> nat
    decreases ts.len(),
{
    if ts.len() == 0 {
        0
    } else {
        threads_running(ts.drop_last(), name) + if stats_of(ts.last().fns@, name) is Some {
            1nat
        } else {
            0nat
        }
    }
}

/// The total time of function `name` over all threads.
pub open spec fn total_across(ts: Seq<ThreadEntry>, name: Seq<char>) -> u64
    decreases ts.len(),
{
    if ts.len() == 0 {
        0
    } else {
        match stats_of(ts.last().fns@, name) {
            Some(f) => wrap_add(total_across(ts.drop_last(), name), f.total_ns),
            None => total_across(ts.drop_last(), name),
        }
    }
}

/// The functions that ran on more than one thread, in order of first
/// appearance.
pub open spec fn cross_candidates(ts: Seq<ThreadEntry>) -> Seq<Seq<char>> {
    distinct(all_fn_names(ts)).filter(|n: Seq<char>| threads_running(ts, n) > 1)
}

/// The total times of the cross-thread candidates, in order.
pub open spec fn candidate_totals(ts: Seq<ThreadEntry>) -> Seq<u64> {
    cross_candidates(ts).map_values(|n: Seq<char>| total_across(ts, n))
}

fn contains_name(names: &Vec<String>, name: &String) -> (r: bool)
    ensures
        r == names@.map_values(|n: String| n@).contains(name@),
{
    let ghost ns = names@.map_values(|n: String| n@);
    let mut i: usize = 0;
    while i < names.len()
        invariant
            i <= names@.len(),
            ns == names@.map_values(|n: String| n@),
            forall|k: int| 0 <= k < i ==> ns[k] != name@,
        decreases names@.len() - i,
    {
        assert(ns[i as int] == names@[i as int]@);
        if names[i] == *name {
            return true;
        }
        i = i + 1;
    }
    false
}

fn distinct_fn_names(ts: &Vec<ThreadEntry>) -> (r: Vec<String>)
    ensures
        r@.map_values(|n: String| n@) == distinct(all_fn_names(ts@)),
{
    let mut names: Vec<String> = Vec::new();
    let mut i: usize = 0;
    while i < ts.len()
        invariant
            i <= ts@.len(),
            names@.map_values(|n: String| n@) == distinct(all_fn_names(ts@.take(i as int))),
        decreases ts@.len() - i,
    {
        let ghost base = all_fn_names(ts@.take(i as int));
        let fs = &ts[i].fns;
        proof {
            assert(ts@.take(i + 1).drop_last() =~= ts@.take(i as int));
            assert(all_fn_names(ts@.take(i + 1)) == base + fn_names(fs@));
            assert(base + fn_names(fs@).take(0) =~= base);
        }
        let mut j: usize = 0;
        while j < fs.len()
            invariant
                j <= fs@.len(),
                names@.map_values(|n: String| n@) == distinct(base + fn_names(fs@).take(j as int)),
            decreases fs@.len() - j,
        {
            let ghost cur = base + fn_names(fs@).take(j as int);
            let ghost nxt = base + fn_names(fs@).take(j + 1);
            assert(nxt.drop_last() =~= cur);
            assert(nxt.last() == fs@[j as int].name@);
            let ghost before = names@;
            if !contains_name(&names, &fs[j].name) {
                names.push(fs[j].name.clone());
                assert(names@.map_values(|n: String| n@) =~= before.map_values(|n: String| n@).push(
                    fs@[j as int].name@,
                ));
            }
            j = j + 1;
        }
        assert(fn_names(fs@).take(fs@.len() as int) =~= fn_names(fs@));
        i = i + 1;
    }
    assert(ts@.take(ts@.len() as int) =~= ts@);
    names
}

fn count_across(ts: &Vec<ThreadEntry>, name: &String) -> (r: (u64, u64))
    requires
        forall|i: int| 0 <= i < ts@.len() ==> fn_names((#[trigger] ts@[i]).fns@).no_duplicates(),
    ensures
        r.0 == threads_running(ts@, name@),
        r.1 == total_across(ts@, name@),
{
    let mut count: u64 = 0;
    let mut total: u64 = 0;
    let mut i: usize = 0;
    while i < ts.len()
        invariant
            i <= ts@.len(),
            forall|k: int| 0 <= k < ts@.len() ==> fn_names((#[trigger] ts@[k]).fns@).no_duplicates(),
            count == threads_running(ts@.take(i as int), name@),
            total == total_across(ts@.take(i as int), name@),
            count <= i,
        decreases ts@.len() - i,
    {
        proof {
            assert(ts@.take(i + 1).drop_last() =~= ts@.take(i as int));
            assert(ts@.take(i + 1).last() == ts@[i as int]);
        }
        match find_fn(&ts[i].fns, name) {
            Some(j) => {
                count = count + 1;
                total = add_wrapping(total, ts[i].fns[j].total_ns);
            },
            None => {},
        }
        i = i + 1;
    }
    assert(ts@.take(ts@.len() as int) =~= ts@);
    (count, total)
}

/// `r` reports `name` as run on `count` threads for `total` nanoseconds.
pub open spec fn reports_cross(r: CrossThreadFn, name: Seq<char>, count: nat, total: u64) -> bool {
    &&& r.name@ == name
    &&& r.thread_count == count as u32
    &&& r.total_ns_across_threads == total
    &&& r.concurrent == (count > 1)
}

/// `r` lists the functions that ran on more than one thread of `ts`, with
/// the number of threads and their total time over all threads, longest
/// total first (among equal totals, in order of first appearance).
pub open spec fn is_cross_report(r: Seq<CrossThreadFn>, ts: Seq<ThreadEntry>) -> bool {
    let cands = cross_candidates(ts);
    &&& r.len() == cands.len()
    &&& exists|order: Seq<usize>|
        #[trigger] is_desc_order(candidate_totals(ts), order) && forall|k: int|
            0 <= k < r.len() ==> reports_cross(
                #[trigger] r[k],
                cands[order[k] as int],
                threads_running(ts, cands[order[k] as int]),
                total_across(ts, cands[order[k] as int]),
            )
}

/// The functions that ran on more than one thread, with the number of
/// threads and their total time over all threads, longest total first
/// (among equal totals, in order of first appearance).
pub fn cross_thread_fns(tp: &ThreadProfiler) -> (r: Vec<CrossThreadFn>)
    requires
        tp.wf(),
    ensures
        is_cross_report(r@, tp.threads@),
{
    let ghost ts = tp.threads@;
    let names = distinct_fn_names(&tp.threads);
    let ghost all = names@.map_values(|n: String| n@);
    let ghost pred = |n: Seq<char>| threads_running(ts, n) > 1;
    let mut cand_names: Vec<String> = Vec::new();
    let mut cand_counts: Vec<u64> = Vec::new();
    let mut cand_totals: Vec<u64> = Vec::new();
    let mut i: usize = 0;
    while i < names.len()
        invariant
            i <= names@.len(),
            ts == tp.threads@,
            tp.wf(),
            all == names@.map_values(|n: String| n@),
            pred == (|n: Seq<char>| threads_running(ts, n) > 1),
            cand_names@.map_values(|n: String| n@) == all.take(i as int).filter(pred),
            cand_counts@.len() == cand_names@.len(),
            cand_totals@.len() == cand_names@.len(),
            forall|k: int|
                0 <= k < cand_names@.len() ==> #[trigger] cand_counts@[k] == threads_running(
                    ts,
                    cand_names@[k]@,
                ) && cand_totals@[k] == total_across(ts, cand_names@[k]@),
        decreases names@.len() - i,
    {
        let (count, total) = count_across(&tp.threads, &names[i]);
        let ghost before = cand_names@;
        if count > 1 {
            cand_names.push(names[i].clone());
            cand_counts.push(count);
            cand_totals.push(total);
        }
        proof {
            reveal(Seq::filter);
            assert(all.take(i + 1).drop_last() =~= all.take(i as int));
            assert(all[i as int] == names@[i as int]@);
            if count > 1 {
                assert(cand_names@.map_values(|n: String| n@) =~= before.map_values(|n: String| n@).push(
                    all[i as int],
                ));
            }
        }
        i = i + 1;
    }
    assert(all.take(names@.len() as int) =~= all);
    let ghost cands = cross_candidates(ts);
    assert(cands == all.filter(pred));
    assert(cand_totals@ =~= candidate_totals(ts)) by {
        assert forall|k: int| 0 <= k < cand_totals@.len() implies cand_totals@[k] == candidate_totals(
            ts,
        )[k] by {
            assert(cands[k] == cand_names@.map_values(|n: String| n@)[k]);
            assert(cand_names@.map_values(|n: String| n@)[k] == cand_names@[k]@);
            assert(candidate_totals(ts)[k] == total_across(ts, cands[k]));
            assert(cand_counts@[k] == threads_running(ts, cand_names@[k]@));
        }
    }
    assert forall|j: int| 0 <= j < cands.len() implies #[trigger] cands[j] == cand_names@[j]@ by {
        assert(cands[j] == cand_names@.map_values(|n: String| n@)[j]);
    }
    let order = order_desc(&cand_totals);
    let mut out: Vec<CrossThreadFn> = Vec::new();
    let mut k: usize = 0;
    while k < order.len()
        invariant
            k <= order@.len(),
            is_desc_order(cand_totals@, order@),
            cand_counts@.len() == cand_names@.len(),
            cand_totals@.len() == cand_names@.len(),
            cands.len() == cand_names@.len(),
            forall|j: int| 0 <= j < cands.len() ==> #[trigger] cands[j] == cand_names@[j]@,
            forall|j: int|
                0 <= j < cand_names@.len() ==> #[trigger] cand_counts@[j] == threads_running(
                    ts,
                    cand_names@[j]@,
                ) && cand_totals@[j] == total_across(ts, cand_names@[j]@),
            out@.len() == k,
            forall|j: int|
                0 <= j < k ==> reports_cross(
                    #[trigger] out@[j],
                    cands[order@[j] as int],
                    threads_running(ts, cands[order@[j] as int]),
                    total_across(ts, cands[order@[j] as int]),
                ),
        decreases order@.len() - k,
    {
        let p = order[k];
        let c = cand_counts[p];
        out.push(
            CrossThreadFn {
                name: cand_names[p].clone(),
                thread_count: c as u32,
                total_ns_across_threads: cand_totals[p],
                concurrent: c > 1,
            },
        );
        k = k + 1;
    }
    out
}

/// `r` is thread `t` of the report: its functions longest first.
pub open spec fn reports_thread(r: ThreadCounts, t: ThreadEntry) -> bool {
    &&& r.thread_id == t.thread_id
    &&& r.thread_name@ == t.thread_name@
    &&& r.active_ns == t.active_ns
    &&& is_sorted_copy(r.functions@, t.fns@)
}

/// The integer part of the thread report: threads busiest first (stable
/// among equal active times), each with its functions longest first; the
/// busiest thread's name; and the functions that ran on several threads.
pub fn collect_counts(tp: &ThreadProfiler) -> (r: ThreadReportCounts)
    requires
        tp.wf(),
    ensures
        r.threads@.len() == tp.threads@.len(),
        exists|order: Seq<usize>|
            is_desc_order(actives(tp.threads@), order) && forall|k: int|
                0 <= k < r.threads@.len() ==> reports_thread(
                    #[trigger] r.threads@[k],
                    tp.threads@[order[k] as int],
                ),
        r.threads@.len() == 0 ==> r.busiest_thread is None,
        r.threads@.len() > 0 ==> (r.busiest_thread matches Some(b) && b@
            == r.threads@[0].thread_name@),
        is_cross_report(r.cross_thread_fns@, tp.threads@),
{
    let ts = &tp.threads;
    let mut keys: Vec<u64> = Vec::new();
    let mut i: usize = 0;
    while i < ts.len()
        invariant
            i <= ts@.len(),
            keys@ == actives(ts@).take(i as int),
        decreases ts@.len() - i,
    {
        keys.push(ts[i].active_ns);
        i = i + 1;
        assert(keys@ =~= actives(ts@).take(i as int));
    }
    assert(keys@ =~= actives(ts@));
    let order = order_desc(&keys);
    let mut threads: Vec<ThreadCounts> = Vec::new();
    let mut k: usize = 0;
    while k < order.len()
        invariant
            k <= order@.len(),
            is_desc_order(actives(ts@), order@),
            threads@.len() == k,
            forall|j: int| 0 <= j < k ==> reports_thread(#[trigger] threads@[j], ts@[order@[j] as int]),
        decreases order@.len() - k,
    {
        let t = &ts[order[k]];
        threads.push(
            ThreadCounts {
                thread_id: t.thread_id,
                thread_name: t.thread_name.clone(),
                active_ns: t.active_ns,
                functions: functions_by_total(&t.fns),
            },
        );
        k = k + 1;
    }
    let busiest = if threads.len() > 0 {
        Some(threads[0].thread_name.clone())
    } else {
        None
    };
    ThreadReportCounts { threads, cross_thread_fns: cross_thread_fns(tp), busiest_thread: busiest }
}

} // verus!
