//! Timeline: an ordered log of every individual profiled call.
//!
//! Unlike the per-function aggregates, the timeline keeps each call with its
//! start offset, duration, thread and heap delta. Recording is opt-in; when
//! the log reaches its capacity the oldest tenth (at least one event) is
//! dropped before the next event is added.

use vstd::prelude::*;
use vstd::string::StringExecFns;
use crate::pprof::StringTable;

verus! {

/// One profiled call.
pub struct TimelineEvent {
    /// Nanoseconds since the session started: the call's start time.
    pub t: u64,
    /// Function name.
    pub name: String,
    /// Total inclusive duration (ns).
    pub dur_ns: u64,
    /// Self time (ns), excluding time spent in callees.
    pub self_ns: u64,
    /// Thread number (1-based, sequential per process).
    pub thread: u64,
    /// Call stack depth at entry (0 = root call).
    pub depth: u32,
    /// Heap bytes allocated during this call.
    pub alloc_bytes: u64,
    /// Heap bytes freed during this call.
    pub dealloc_bytes: u64,
    /// The call was flagged as an outlier.
    pub outlier: bool,
    /// The call exceeded its configured budget.
    pub budget_exceeded: bool,
}

/// Default capacity of the in-memory log.
pub const DEFAULT_MAX_EVENTS: u64 = 1_000_000;

/// The timeline's state: whether recording is on, the capacity, the events.
pub struct Timeline {
    enabled: bool,
    max_events: u64,
    events: Vec<TimelineEvent>,
}

impl Timeline {
    /// Whether recording is on.
    pub closed spec fn is_on(&self) -> bool {
        self.enabled
    }

    /// The capacity after which the oldest events are dropped.
    pub closed spec fn capacity(&self) -> u64 {
        self.max_events
    }

    /// The recorded events, oldest first.
    pub closed spec fn events(&self) -> Seq<TimelineEvent> {
        self.events@
    }

    /// A fresh timeline: disabled, default capacity, no events.
    pub fn new() -> (tl: Self)
        ensures
            !tl.is_on(),
            tl.capacity() == DEFAULT_MAX_EVENTS,
            tl.events() == Seq::<TimelineEvent>::empty(),
    {
        Timeline { enabled: false, max_events: DEFAULT_MAX_EVENTS, events: Vec::new() }
    }
}

/// How many of the oldest events go when one more is recorded into a full
/// log of capacity `m` holding `len` events: a tenth of the capacity, at
/// least one, and never more than there are.
pub open spec fn drop_count(len: nat, m: nat) -> nat {
    let d: nat = if m / 10 >= 1 {
        m / 10
    } else {
        1
    };
    if d <= len {
        d
    } else {
        len
    }
}

/// The events kept when one more is recorded into a log holding `events`
/// with capacity `max`: at or above capacity, the oldest tenth of the
/// capacity (at least one event) goes.
pub open spec fn kept_on_record(events: Seq<TimelineEvent>, max: u64) -> Seq<TimelineEvent> {
    let m = (max as usize) as nat;
    if events.len() >= m {
        events.skip(drop_count(events.len(), m) as int)
    } else {
        events
    }
}

/// The log after recording each of `new_events` in turn into a log holding
/// `events` with capacity `max`.
pub open spec fn record_all(
    events: Seq<TimelineEvent>,
    max: u64,
    new_events: Seq<TimelineEvent>,
) -> Seq<TimelineEvent>
    decreases new_events.len(),
{
    if new_events.len() == 0 {
        events
    } else {
        record_all(kept_on_record(events, max).push(new_events[0]), max, new_events.drop_first())
    }
}

/// A copy of `e`.
pub fn copy_event(e: &TimelineEvent) -> (r: TimelineEvent)
    ensures
        r == *e,
{
    TimelineEvent {
        t: e.t,
        name: e.name.clone(),
        dur_ns: e.dur_ns,
        self_ns: e.self_ns,
        thread: e.thread,
        depth: e.depth,
        alloc_bytes: e.alloc_bytes,
        dealloc_bytes: e.dealloc_bytes,
        outlier: e.outlier,
        budget_exceeded: e.budget_exceeded,
    }
}

/// Turns recording on.
pub fn enable(tl: &mut Timeline)
    ensures
        final(tl).is_on(),
        final(tl).capacity() == old(tl).capacity(),
        final(tl).events() == old(tl).events(),
{
    tl.enabled = true;
}

/// Turns recording off (events already recorded stay).
pub fn disable(tl: &mut Timeline)
    ensures
        !final(tl).is_on(),
        final(tl).capacity() == old(tl).capacity(),
        final(tl).events() == old(tl).events(),
{
    tl.enabled = false;
}

/// Whether recording is on.
pub fn is_enabled(tl: &Timeline) -> (r: bool)
    ensures
        r == tl.is_on(),
{
    tl.enabled
}

/// Sets the capacity of the log.
pub fn set_max_events(tl: &mut Timeline, n: u64)
    ensures
        final(tl).capacity() == n,
        final(tl).is_on() == old(tl).is_on(),
        final(tl).events() == old(tl).events(),
{
    tl.max_events = n;
}

/// Records one call. Nothing happens while recording is off.
pub fn record(
    tl: &mut Timeline,
    name: &str,
    t_offset_ns: u64,
    dur_ns: u64,
    self_ns: u64,
    thread: u64,
    depth: u32,
    alloc_bytes: u64,
    dealloc_bytes: u64,
    outlier: bool,
    budget_exceeded: bool,
)
    ensures
        final(tl).is_on() == old(tl).is_on(),
        final(tl).capacity() == old(tl).capacity(),
        !old(tl).is_on() ==> final(tl).events() == old(tl).events(),
        old(tl).is_on() ==> final(tl).events().drop_last() == kept_on_record(
            old(tl).events(),
            old(tl).capacity(),
        ),
        old(tl).is_on() ==> ({
            let e = final(tl).events().last();
            &&& final(tl).events().len() > 0
            &&& e.name@ == name@
            &&& e.t == t_offset_ns
            &&& e.dur_ns == dur_ns
            &&& e.self_ns == self_ns
            &&& e.thread == thread
            &&& e.depth == depth
            &&& e.alloc_bytes == alloc_bytes
            &&& e.dealloc_bytes == dealloc_bytes
            &&& e.outlier == outlier
            &&& e.budget_exceeded == budget_exceeded
        }),
{
    if !tl.enabled {
        return ;
    }
    let ev = TimelineEvent {
        t: t_offset_ns,
        name: String::from_str(name),
        dur_ns,
        self_ns,
        thread,
        depth,
        alloc_bytes,
        dealloc_bytes,
        outlier,
        budget_exceeded,
    };
    let max: usize = tl.max_events as usize;
    let len: usize = tl.events.len();
    if len >= max {
        let tenth: usize = if max / 10 >= 1 {
            max / 10
        } else {
            1
        };
        let drain_to: usize = if tenth <= len {
            tenth
        } else {
            len
        };
        let rest = tl.events.split_off(drain_to);
        tl.events = rest;
    }
    let ghost kept = tl.events@;
    tl.events.push(ev);
    assert(tl.events@.drop_last() =~= kept);
}


/// Clears all recorded events.
pub fn reset(tl: &mut Timeline)
    ensures
        final(tl).events() == Seq::<TimelineEvent>::empty(),
        final(tl).is_on() == old(tl).is_on(),
        final(tl).capacity() == old(tl).capacity(),
{
    tl.events = Vec::new();
}

/// Copies of all recorded events, oldest first.
pub fn collect(tl: &Timeline) -> (r: Vec<TimelineEvent>)
    ensures
        r@ == tl.events(),
{
    let mut r: Vec<TimelineEvent> = Vec::new();
    let n = tl.events.len();
    let mut i: usize = 0;
    while i < n
        invariant
            n == tl.events@.len(),
            i <= n,
            r@ == tl.events@.take(i as int),
        decreases n - i,
    {
        r.push(copy_event(&tl.events[i]));
        i = i + 1;
        assert(r@ =~= tl.events@.take(i as int));
    }
    assert(tl.events@.take(n as int) =~= tl.events@);
    r
}

/// Number of events currently recorded.
pub fn event_count(tl: &Timeline) -> (n: usize)
    ensures
        n == tl.events().len(),
{
    tl.events.len()
}

/// Which events a filtered save writes.
pub enum EventFilter {
    /// Every event.
    All,
    /// Events whose duration is at least this many nanoseconds.
    SlowerThan(u64),
    /// Events flagged as outliers.
    Outliers,
    /// Events that exceeded their budget.
    BudgetExceeded,
}

/// Whether `e` passes `f`.
pub open spec fn passes(f: EventFilter, e: TimelineEvent) -> bool {
    match f {
        EventFilter::All => true,
        EventFilter::SlowerThan(min_ns) => e.dur_ns >= min_ns,
        EventFilter::Outliers => e.outlier,
        EventFilter::BudgetExceeded => e.budget_exceeded,
    }
}

/// The events of `events` that pass `f`, in order.
pub open spec fn selected(events: Seq<TimelineEvent>, f: EventFilter) -> Seq<TimelineEvent> {
    events.filter(|e: TimelineEvent| passes(f, e))
}

/// A filter selects exactly the events it names, whatever their other
/// flags: every event for `All`; the events lasting at least the bound for
/// `SlowerThan`; the events flagged as outliers for `Outliers`; the events
/// that exceeded their budget for `BudgetExceeded`. Nothing else is
/// selected.
pub proof fn lemma_selected_exactly(events: Seq<TimelineEvent>, f: EventFilter)
    ensures
        forall|x: TimelineEvent|
            #[trigger] selected(events, f).contains(x) <==> events.contains(
                x,
            ) && match f {
                EventFilter::All => true,
                EventFilter::SlowerThan(min_ns) => x.dur_ns >= min_ns,
                EventFilter::Outliers => x.outlier,
                EventFilter::BudgetExceeded => x.budget_exceeded,
            },
{
    let p = |e: TimelineEvent| passes(f, e);
    assert(selected(events, f) == events.filter(p));
    assert forall|x: TimelineEvent| #[trigger] events.filter(p).contains(x) <==> events.contains(x)
        && p(x) by {
        if events.filter(p).contains(x) {
            events.lemma_filter_contains_rev(p, x);
        }
        if events.contains(x) && p(x) {
            let i = choose|i: int| 0 <= i < events.len() && events[i] == x;
            events.lemma_filter_contains(p, i);
        }
    }
}

/// Copies of the recorded events that pass `filter`, oldest first.
pub fn select(tl: &Timeline, filter: &EventFilter) -> (r: Vec<TimelineEvent>)
    ensures
        r@ == tl.events().filter(|e: TimelineEvent| passes(*filter, e)),
        forall|x: TimelineEvent|
            #[trigger] r@.contains(x) <==> tl.events().contains(x) && match *filter {
                EventFilter::All => true,
                EventFilter::SlowerThan(min_ns) => x.dur_ns >= min_ns,
                EventFilter::Outliers => x.outlier,
                EventFilter::BudgetExceeded => x.budget_exceeded,
            },
{
    proof {
        lemma_selected_exactly(tl.events(), *filter);
    }
    let ghost pred = |e: TimelineEvent| passes(*filter, e);
    let mut r: Vec<TimelineEvent> = Vec::new();
    let n = tl.events.len();
    let mut i: usize = 0;
    while i < n
        invariant
            n == tl.events@.len(),
            i <= n,
            pred == (|e: TimelineEvent| passes(*filter, e)),
            r@ == tl.events@.take(i as int).filter(pred),
        decreases n - i,
    {
        let e = &tl.events[i];
        let keep = match filter {
            EventFilter::All => true,
            EventFilter::SlowerThan(min_ns) => e.dur_ns >= *min_ns,
            EventFilter::Outliers => e.outlier,
            EventFilter::BudgetExceeded => e.budget_exceeded,
        };
        assert(tl.events@.take(i + 1).drop_last() =~= tl.events@.take(i as int));
        proof {
            reveal(Seq::filter);
        }
        if keep {
            r.push(copy_event(e));
        }
        i = i + 1;
        assert(r@ =~= tl.events@.take(i as int).filter(pred));
    }
    assert(tl.events@.take(n as int) =~= tl.events@);
    assert(r@ == selected(tl.events(), *filter));
    r
}


proof fn lemma_push_to_set<A>(q: Seq<A>, x: A)
    ensures
        q.push(x).to_set() == q.to_set().insert(x),
        q.contains(x) ==> q.to_set().insert(x) == q.to_set(),
{
    assert forall|a: A| q.push(x).to_set().contains(a) <==> q.to_set().insert(x).contains(a) by {
        if q.push(x).contains(a) {
            let k = choose|k: int| 0 <= k < q.push(x).len() && q.push(x)[k] == a;
            if k < q.len() {
                assert(q[k] == a);
            }
        }
        if q.contains(a) {
            let k = choose|k: int| 0 <= k < q.len() && q[k] == a;
            assert(q.push(x)[k] == a);
        }
        if a == x {
            assert(q.push(x)[q.len() as int] == a);
        }
    }
    assert(q.push(x).to_set() =~= q.to_set().insert(x));
    assert(q.contains(x) ==> q.to_set().insert(x) =~= q.to_set());
}

/// Summary statistics over the recorded events.
pub struct TimelineSummary {
    pub total_events: usize,
    pub outlier_count: usize,
    pub budget_exceeded_count: usize,
    pub unique_functions: usize,
    pub slowest_call: Option<TimelineEvent>,
    pub most_allocating_call: Option<TimelineEvent>,
    pub total_alloc_bytes: u64,
    pub timeline_span_ns: u64,
}

/// Sum of the heap bytes allocated by the events.
pub open spec fn total_alloc(s: Seq<TimelineEvent>) -> nat
    decreases s.len(),
{
    if s.len() == 0 {
        0
    } else {
        total_alloc(s.drop_last()) + s.last().alloc_bytes as nat
    }
}

/// Latest end time (`t + dur_ns`) of the events, 0 for none.
pub open spec fn span_end(s: Seq<TimelineEvent>) -> nat
    decreases s.len(),
{
    if s.len() == 0 {
        0
    } else {
        let end = s.last().t + s.last().dur_ns;
        let prev = span_end(s.drop_last());
        if end > prev {
            end as nat
        } else {
            prev
        }
    }
}

/// The earliest of the events with the largest duration.
pub open spec fn slowest(s: Seq<TimelineEvent>) -> Option<TimelineEvent>
    decreases s.len(),
{
    if s.len() == 0 {
        None
    } else {
        match slowest(s.drop_last()) {
            None => Some(s.last()),
            Some(b) => if s.last().dur_ns > b.dur_ns {
                Some(s.last())
            } else {
                Some(b)
            },
        }
    }
}

/// The earliest of the events with the most bytes allocated.
pub open spec fn most_allocating(s: Seq<TimelineEvent>) -> Option<TimelineEvent>
    decreases s.len(),
{
    if s.len() == 0 {
        None
    } else {
        match most_allocating(s.drop_last()) {
            None => Some(s.last()),
            Some(b) => if s.last().alloc_bytes > b.alloc_bytes {
                Some(s.last())
            } else {
                Some(b)
            },
        }
    }
}

/// The function names of the events, in order.
pub open spec fn event_names(s: Seq<TimelineEvent>) -> Seq<Seq<char>> {
    s.map_values(|e: TimelineEvent| e.name@)
}

/// The summary's sums fit in 64 bits: every end time and the byte total.
pub open spec fn summary_fits(s: Seq<TimelineEvent>) -> bool {
    &&& total_alloc(s) <= u64::MAX
    &&& forall|i: int| 0 <= i < s.len() ==> s[i].t + s[i].dur_ns <= u64::MAX
}

proof fn lemma_total_alloc_prefix(s: Seq<TimelineEvent>, i: int)
    requires
        0 <= i <= s.len(),
    ensures
        total_alloc(s.take(i)) <= total_alloc(s),
    decreases s.len() - i,
{
    if i < s.len() {
        lemma_total_alloc_prefix(s, i + 1);
        assert(s.take(i + 1).drop_last() =~= s.take(i));
    } else {
        assert(s.take(i) =~= s);
    }
}

/// Whether `summarize` can add up the events without overflow.
pub fn summary_in_range(tl: &Timeline) -> (r: bool)
    ensures
        r == summary_fits(tl.events()),
{
    let n = tl.events.len();
    let mut sum: u64 = 0;
    let mut i: usize = 0;
    while i < n
        invariant
            n == tl.events@.len(),
            i <= n,
            sum == total_alloc(tl.events@.take(i as int)),
            forall|k: int| 0 <= k < i ==> tl.events@[k].t + tl.events@[k].dur_ns <= u64::MAX,
        decreases n - i,
    {
        let e = &tl.events[i];
        assert(tl.events@.take(i + 1).drop_last() =~= tl.events@.take(i as int));
        if e.t > u64::MAX - e.dur_ns {
            return false;
        }
        if sum > u64::MAX - e.alloc_bytes {
            proof {
                lemma_total_alloc_prefix(tl.events@, i + 1);
            }
            return false;
        }
        sum = sum + e.alloc_bytes;
        i = i + 1;
    }
    assert(tl.events@.take(n as int) =~= tl.events@);
    true
}

/// Summary statistics over all recorded events.
pub fn summarize(tl: &Timeline) -> (r: TimelineSummary)
    requires
        summary_fits(tl.events()),
    ensures
        r.total_events == tl.events().len(),
        r.outlier_count == tl.events().filter(|e: TimelineEvent| e.outlier).len(),
        r.budget_exceeded_count == tl.events().filter(|e: TimelineEvent| e.budget_exceeded).len(),
        r.unique_functions == event_names(tl.events()).to_set().len(),
        r.slowest_call == slowest(tl.events()),
        r.most_allocating_call == most_allocating(tl.events()),
        r.total_alloc_bytes == total_alloc(tl.events()),
        r.timeline_span_ns == span_end(tl.events()),
{
    let ghost s = tl.events@;
    let ghost po = |e: TimelineEvent| e.outlier;
    let ghost pb = |e: TimelineEvent| e.budget_exceeded;
    let n = tl.events.len();
    let mut outlier_count: usize = 0;
    let mut budget_exceeded_count: usize = 0;
    let mut seen = StringTable::empty();
    let mut slowest_i: Option<usize> = None;
    let mut most_alloc_i: Option<usize> = None;
    let mut total: u64 = 0;
    let mut span: u64 = 0;
    let mut i: usize = 0;
    proof {
        lemma_total_alloc_prefix(s, 0);
    }
    while i < n
        invariant
            n == s.len(),
            s == tl.events@,
            summary_fits(s),
            i <= n,
            po == (|e: TimelineEvent| e.outlier),
            pb == (|e: TimelineEvent| e.budget_exceeded),
            outlier_count == s.take(i as int).filter(po).len(),
            budget_exceeded_count == s.take(i as int).filter(pb).len(),
            outlier_count <= i,
            budget_exceeded_count <= i,
            seen.wf(),
            seen@.to_set() == event_names(s.take(i as int)).to_set(),
            total == total_alloc(s.take(i as int)),
            span == span_end(s.take(i as int)),
            match slowest_i {
                None => slowest(s.take(i as int)) is None,
                Some(k) => k < i && slowest(s.take(i as int)) == Some(s[k as int]),
            },
            match most_alloc_i {
                None => most_allocating(s.take(i as int)) is None,
                Some(k) => k < i && most_allocating(s.take(i as int)) == Some(s[k as int]),
            },
            i == 0 ==> slowest_i is None && most_alloc_i is None,
            i > 0 ==> slowest_i is Some && most_alloc_i is Some,
        decreases n - i,
    {
        let e = &tl.events[i];
        let ghost pre = s.take(i as int);
        let ghost cur = s.take(i + 1);
        assert(cur.drop_last() =~= pre);
        assert(cur.last() == s[i as int]);
        proof {
            reveal(Seq::filter);
            lemma_total_alloc_prefix(s, i + 1);
        }
        if e.outlier {
            outlier_count = outlier_count + 1;
        }
        if e.budget_exceeded {
            budget_exceeded_count = budget_exceeded_count + 1;
        }
        let ghost seen_before = seen@;
        let _ = seen.intern(&e.name);
        proof {
            assert(event_names(cur) =~= event_names(pre).push(e.name@));
            lemma_push_to_set(seen_before, e.name@);
            lemma_push_to_set(event_names(pre), e.name@);
        }
        total = total + e.alloc_bytes;
        let end = e.t + e.dur_ns;
        if end > span {
            span = end;
        }
        match slowest_i {
            None => {
                slowest_i = Some(i);
            },
            Some(k) => {
                if e.dur_ns > tl.events[k].dur_ns {
                    slowest_i = Some(i);
                }
            },
        }
        match most_alloc_i {
            None => {
                most_alloc_i = Some(i);
            },
            Some(k) => {
                if e.alloc_bytes > tl.events[k].alloc_bytes {
                    most_alloc_i = Some(i);
                }
            },
        }
        i = i + 1;
    }
    assert(s.take(n as int) =~= s);
    proof {
        seen@.unique_seq_to_set();
    }
    let slowest_call = match slowest_i {
        None => None,
        Some(k) => Some(copy_event(&tl.events[k])),
    };
    let most_allocating_call = match most_alloc_i {
        None => None,
        Some(k) => Some(copy_event(&tl.events[k])),
    };
    TimelineSummary {
        total_events: n,
        outlier_count,
        budget_exceeded_count,
        unique_functions: seen.len(),
        slowest_call,
        most_allocating_call,
        total_alloc_bytes: total,
        timeline_span_ns: span,
    }
}


/// Once the log holds at most its capacity (of at least one event),
/// recording keeps it at most its capacity; the events kept are the newest
/// ones, in their order.
pub proof fn lemma_record_respects_capacity(events: Seq<TimelineEvent>, max: u64)
    requires
        (max as usize) as nat >= 1,
        events.len() <= (max as usize) as nat,
    ensures
        kept_on_record(events, max).len() + 1 <= (max as usize) as nat,
        kept_on_record(events, max) == events.skip(
            events.len() - kept_on_record(events, max).len(),
        ),
{
    let m = (max as usize) as nat;
    if events.len() >= m {
        assert(kept_on_record(events, max) == events.skip(drop_count(events.len(), m) as int));
    } else {
        assert(events.skip(0) =~= events);
    }
}

/// Over any run of recorded calls, a log that starts within its capacity
/// (of at least one event) stays within it, and always holds the newest
/// events recorded since it was last cleared, in order: a suffix of what it
/// held followed by every event recorded.
pub proof fn lemma_record_all_within_capacity(
    events: Seq<TimelineEvent>,
    max: u64,
    new_events: Seq<TimelineEvent>,
)
    requires
        (max as usize) as nat >= 1,
        events.len() <= (max as usize) as nat,
    ensures
        record_all(events, max, new_events).len() <= (max as usize) as nat,
        record_all(events, max, new_events).len() <= events.len() + new_events.len(),
        record_all(events, max, new_events) == (events + new_events).skip(
            (events + new_events).len() - record_all(events, max, new_events).len(),
        ),
    decreases new_events.len(),
{
    if new_events.len() > 0 {
        let k = kept_on_record(events, max);
        lemma_record_respects_capacity(events, max);
        let e1 = k.push(new_events[0]);
        let rest = new_events.drop_first();
        lemma_record_all_within_capacity(e1, max, rest);
        let r = record_all(e1, max, rest);
        let all = events + new_events;
        let all1 = e1 + rest;
        let d = events.len() - k.len();
        assert(all1 =~= all.skip(d));
        assert(r == all1.skip(all1.len() - r.len()));
        assert(r.len() <= all1.len());
        assert(all1.len() == all.len() - d);
        let x = all1.len() - r.len();
        assert forall|j: int| 0 <= j < r.len() implies all1.skip(x)[j] == all.skip(
            all.len() - r.len(),
        )[j] by {
            assert(all1.skip(x)[j] == all1[x + j]);
            assert(all1[x + j] == all.skip(d)[x + j]);
        }
        assert(all1.skip(x) =~= all.skip(all.len() - r.len()));
    }
}

/// Below the capacity nothing is dropped: recording `m` calls into a log of
/// `k` events, with `k + m` within the capacity, leaves exactly those
/// `k + m` events, the new ones last and in order.
pub proof fn lemma_record_all_below_capacity(
    events: Seq<TimelineEvent>,
    max: u64,
    new_events: Seq<TimelineEvent>,
)
    requires
        events.len() + new_events.len() <= (max as usize) as nat,
    ensures
        record_all(events, max, new_events) == events + new_events,
    decreases new_events.len(),
{
    if new_events.len() > 0 {
        let e1 = kept_on_record(events, max).push(new_events[0]);
        assert(kept_on_record(events, max) == events);
        lemma_record_all_below_capacity(e1, max, new_events.drop_first());
        assert(e1 + new_events.drop_first() =~= events + new_events);
    }
}

/// The slowest call is at least as slow as every recorded call, and is one
/// of them.
pub proof fn lemma_slowest_is_maximal(s: Seq<TimelineEvent>)
    ensures
        s.len() == 0 <==> slowest(s) is None,
        slowest(s) matches Some(b) ==> s.contains(b) && forall|i: int|
            0 <= i < s.len() ==> #[trigger] s[i].dur_ns <= b.dur_ns,
    decreases s.len(),
{
    if s.len() > 0 {
        let pre = s.drop_last();
        lemma_slowest_is_maximal(pre);
        assert(s[s.len() - 1] == s.last());
        match slowest(pre) {
            None => {},
            Some(b) => {
                let k = choose|k: int| 0 <= k < pre.len() && pre[k] == b;
                assert(s[k] == b);
                assert forall|i: int| 0 <= i < s.len() implies #[trigger] s[i].dur_ns
                    <= slowest(s)->0.dur_ns by {
                    if i < pre.len() {
                        assert(s[i] == pre[i]);
                    }
                }
            },
        }
    }
}

/// The most allocating call allocated at least as much as every recorded
/// call, and is one of them.
pub proof fn lemma_most_allocating_is_maximal(s: Seq<TimelineEvent>)
    ensures
        s.len() == 0 <==> most_allocating(s) is None,
        most_allocating(s) matches Some(b) ==> s.contains(b) && forall|i: int|
            0 <= i < s.len() ==> #[trigger] s[i].alloc_bytes <= b.alloc_bytes,
    decreases s.len(),
{
    if s.len() > 0 {
        let pre = s.drop_last();
        lemma_most_allocating_is_maximal(pre);
        assert(s[s.len() - 1] == s.last());
        match most_allocating(pre) {
            None => {},
            Some(b) => {
                let k = choose|k: int| 0 <= k < pre.len() && pre[k] == b;
                assert(s[k] == b);
                assert forall|i: int| 0 <= i < s.len() implies #[trigger] s[i].alloc_bytes
                    <= most_allocating(s)->0.alloc_bytes by {
                    if i < pre.len() {
                        assert(s[i] == pre[i]);
                    }
                }
            },
        }
    }
}

/// The summary's counts never exceed the number of events, and there are
/// no more distinct functions than events.
pub proof fn lemma_summary_counts_bounded(s: Seq<TimelineEvent>)
    ensures
        s.filter(|e: TimelineEvent| e.outlier).len() <= s.len(),
        s.filter(|e: TimelineEvent| e.budget_exceeded).len() <= s.len(),
        event_names(s).to_set().len() <= s.len(),
{
    s.lemma_filter_len(|e: TimelineEvent| e.outlier);
    s.lemma_filter_len(|e: TimelineEvent| e.budget_exceeded);
    event_names(s).lemma_cardinality_of_set();
}

} // verus!
