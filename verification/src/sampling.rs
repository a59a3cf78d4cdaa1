//! In-process sampling: its configuration, the queue of captured stacks
//! between the signal handler and the collector, which frames are kept,
//! and the per-symbol sample counts of a session.

use vstd::prelude::*;
use vstd::string::StringExecFns;
use std::collections::VecDeque;
use crate::scan::{has_sub, contains_seq, starts_with};
use crate::text::chars_of;
use crate::order::{is_desc_order, order_desc};

verus! {

/// How the sampling profiler samples.
pub struct SamplingConfig {
    /// Samples per second.
    pub frequency_hz: u32,
    /// Frames captured per sample.
    pub max_stack_depth: usize,
    /// Whether samples in idle code are kept.
    pub include_idle: bool,
    /// Frames whose symbol starts with one of these are left out.
    pub blocklist_prefixes: Vec<String>,
}

impl Default for SamplingConfig {
    fn default() -> (c: Self)
        ensures
            c.frequency_hz == 100,
            c.max_stack_depth == 24,
            !c.include_idle,
            c.blocklist_prefixes@.len() == 5,
            c.blocklist_prefixes@[0]@ == "libc"@,
            c.blocklist_prefixes@[1]@ == "libgcc"@,
            c.blocklist_prefixes@[2]@ == "pthread"@,
            c.blocklist_prefixes@[3]@ == "std::sys"@,
            c.blocklist_prefixes@[4]@ == "core::panicking"@,
    {
        let mut b: Vec<String> = Vec::new();
        b.push(String::from_str("libc"));
        b.push(String::from_str("libgcc"));
        b.push(String::from_str("pthread"));
        b.push(String::from_str("std::sys"));
        b.push(String::from_str("core::panicking"));
        SamplingConfig {
            frequency_hz: 100,
            max_stack_depth: 24,
            include_idle: false,
            blocklist_prefixes: b,
        }
    }
}

/// The configuration a report records.
#[derive(Clone, Copy, PartialEq, Eq, Structural, Debug)]
pub struct SamplingReportConfig {
    pub frequency_hz: u32,
    pub max_stack_depth: usize,
}

impl SamplingReportConfig {
    /// The recorded part of `config`.
    pub fn of(config: &SamplingConfig) -> (r: Self)
        ensures
            r.frequency_hz == config.frequency_hz,
            r.max_stack_depth == config.max_stack_depth,
    {
        SamplingReportConfig {
            frequency_hz: config.frequency_hz,
            max_stack_depth: config.max_stack_depth,
        }
    }
}

/// The timer interval for a sampling frequency: a million microseconds
/// divided by the frequency (taken as at least one).
pub fn interval_us(frequency_hz: u32) -> (r: u32)
    ensures
        r == 1_000_000u32 / (if frequency_hz >= 1 {
            frequency_hz
        } else {
            1
        }),
{
    let f: u32 = if frequency_hz >= 1 {
        frequency_hz
    } else {
        1
    };
    1_000_000 / f
}

/// How long the collector sleeps between drains: half the interval, but
/// at least a millisecond.
pub fn collector_sleep_us(interval_us: u32) -> (r: u32)
    ensures
        r == (if interval_us / 2 >= 1000 {
            interval_us / 2
        } else {
            1000
        }),
{
    let half = interval_us / 2;
    if half >= 1000 {
        half
    } else {
        1000
    }
}

/// Whether a sampling session is running; only one may run at a time.
pub struct SamplingProfiler {
    pub active: bool,
}

impl SamplingProfiler {
    /// No session running.
    pub fn new() -> (p: Self)
        ensures
            !p.active,
    {
        SamplingProfiler { active: false }
    }

    /// Claims the sampler for a new session; refused while one runs.
    pub fn start(&mut self) -> (r: Result<(), String>)
        ensures
            old(self).active ==> (r matches Err(e) && e@ == "A sampling profiler is already running"@)
                && final(self).active,
            !old(self).active ==> r is Ok && final(self).active,
    {
        if self.active {
            return Err(String::from_str("A sampling profiler is already running"));
        }
        self.active = true;
        Ok(())
    }

    /// Releases the sampler.
    pub fn stop(&mut self)
        ensures
            !final(self).active,
    {
        self.active = false;
    }
}

// ─── the queue of captured stacks ───────────────────────────────────────────

/// The queue holds at most this many captured stacks.
pub const RING_CAPACITY: usize = 512;

/// Captured stacks waiting to be symbolized, oldest first.
pub struct RingBuffer<T> {
    pub slots: VecDeque<T>,
}

impl<T> RingBuffer<T> {
    pub open spec fn view(&self) -> Seq<T> {
        self.slots@
    }

    pub open spec fn wf(&self) -> bool {
        self.slots@.len() <= RING_CAPACITY
    }

    /// An empty queue.
    pub fn new() -> (r: Self)
        ensures
            r.wf(),
            r.view().len() == 0,
    {
        RingBuffer { slots: VecDeque::new() }
    }

    /// Queues a captured stack; when the queue is full the stack is
    /// dropped. Tells whether it was queued.
    pub fn push(&mut self, item: T) -> (queued: bool)
        requires
            old(self).wf(),
        ensures
            final(self).wf(),
            queued == (old(self).view().len() < RING_CAPACITY),
            queued ==> final(self).view() == old(self).view().push(item),
            !queued ==> final(self).view() == old(self).view(),
    {
        if self.slots.len() >= RING_CAPACITY {
            return false;
        }
        self.slots.push_back(item);
        true
    }

    /// Takes the oldest queued stack, if any.
    pub fn drain(&mut self) -> (r: Option<T>)
        requires
            old(self).wf(),
        ensures
            final(self).wf(),
            old(self).view().len() == 0 ==> r is None && final(self).view() == old(self).view(),
            old(self).view().len() > 0 ==> r == Some(old(self).view()[0]) && final(self).view()
                == old(self).view().drop_first(),
    {
        self.slots.pop_front()
    }

    /// Empties the queue.
    pub fn reset(&mut self)
        ensures
            final(self).wf(),
            final(self).view().len() == 0,
    {
        self.slots = VecDeque::new();
    }
}

/// The queue after `n` drains, each taking the oldest stack.
pub open spec fn after_drains<T>(q: Seq<T>, n: nat) -> Seq<T>
    decreases n,
{
    if n == 0 || q.len() == 0 {
        q
    } else {
        after_drains(q.drop_first(), (n - 1) as nat)
    }
}

/// The stacks that `n` drains take, in the order they come out.
pub open spec fn drained<T>(q: Seq<T>, n: nat) -> Seq<T>
    decreases n,
{
    if n == 0 || q.len() == 0 {
        Seq::empty()
    } else {
        seq![q[0]].add(drained(q.drop_first(), (n - 1) as nat))
    }
}

/// Stacks come out of the queue in the order they went in: after `x` is
/// queued behind the stacks `q`, draining takes all of `q` first, in order,
/// and then `x`, which leaves the queue empty.
pub proof fn lemma_ring_fifo<T>(q: Seq<T>, x: T)
    ensures
        drained(q.push(x), q.len()) == q,
        after_drains(q.push(x), q.len()) == seq![x],
        drained(q.push(x), q.len() + 1) == q.push(x),
        after_drains(q.push(x), q.len() + 1).len() == 0,
    decreases q.len(),
{
    let qx = q.push(x);
    if q.len() > 0 {
        let r = q.drop_first();
        lemma_ring_fifo(r, x);
        assert(qx.drop_first() =~= r.push(x));
        assert(qx[0] == q[0]);
        assert(drained(qx, q.len()) == seq![q[0]].add(drained(r.push(x), r.len())));
        assert(drained(qx, q.len() + 1) == seq![q[0]].add(drained(r.push(x), r.len() + 1)));
        assert(after_drains(qx, q.len()) == after_drains(r.push(x), r.len()));
        assert(after_drains(qx, q.len() + 1) == after_drains(r.push(x), r.len() + 1));
        assert(seq![q[0]].add(r) =~= q);
        assert(seq![q[0]].add(r.push(x)) =~= qx);
    } else {
        let e = Seq::<T>::empty();
        assert(qx.drop_first() =~= e);
        assert(qx =~= seq![x]);
        assert(drained(e, 0) == e);
        assert(after_drains(e, 0) == e);
        assert(drained(qx, 1) == seq![qx[0]].add(drained(e, 0)));
        assert(seq![x].add(e) =~= seq![x]);
    }
}

// ─── frames ─────────────────────────────────────────────────────────────────

/// One symbol of a resolved frame, as the backtrace reports it.
pub struct SymbolInfo {
    pub name: Option<String>,
    pub file: Option<String>,
    pub line: Option<u32>,
}

/// One kept frame of a sample.
pub struct FrameInfo {
    pub name: String,
    pub file: Option<String>,
    pub line: Option<u32>,
}

/// A symbol's name, or `<unknown>` when it has none.
pub open spec fn name_or_unknown(n: Option<String>) -> Seq<char> {
    match n {
        Some(s) => s@,
        None => "<unknown>"@,
    }
}

/// Frames of runtime and profiler internals are left out: those starting
/// with a blocklisted prefix, `rustscope::` or `backtrace::`, and those
/// holding `signal_handler` or `__rust_`.
pub open spec fn blocked(name: Seq<char>, blocklist: Seq<Seq<char>>) -> bool {
    (exists|i: int| 0 <= i < blocklist.len() && (#[trigger] blocklist[i]).is_prefix_of(name))
        || "rustscope::"@.is_prefix_of(name) || "backtrace::"@.is_prefix_of(name) || has_sub(
        name,
        "signal_handler"@,
    ) || has_sub(name, "__rust_"@)
}

pub open spec fn prefixes(blocklist: Seq<String>) -> Seq<Seq<char>> {
    blocklist.map_values(|s: String| s@)
}

/// Whether a frame named `name` is left out.
pub fn frame_blocked(name: &str, blocklist: &Vec<String>) -> (r: bool)
    ensures
        r == blocked(name@, prefixes(blocklist@)),
{
    let ghost bl = prefixes(blocklist@);
    let n = chars_of(name);
    let mut i: usize = 0;
    while i < blocklist.len()
        invariant
            i <= blocklist@.len(),
            bl == prefixes(blocklist@),
            n@ == name@,
            forall|k: int| 0 <= k < i ==> !(#[trigger] bl[k]).is_prefix_of(name@),
        decreases blocklist@.len() - i,
    {
        let p = chars_of(blocklist[i].as_str());
        assert(bl[i as int] == blocklist@[i as int]@);
        if starts_with(&n, &p) {
            return true;
        }
        i = i + 1;
    }
    if starts_with(&n, &chars_of("rustscope::")) || starts_with(&n, &chars_of("backtrace::"))
        || contains_seq(&n, &chars_of("signal_handler")) || contains_seq(&n, &chars_of("__rust_")) {
        return true;
    }
    false
}

/// The frames kept of a resolved backtrace: of its first `max_depth`
/// frames, every symbol not left out, in order, unnamed ones called
/// `<unknown>`.
pub open spec fn kept_frames(frames: Seq<Seq<SymbolInfo>>, max_depth: usize, blocklist: Seq<Seq<char>>) -> Seq<
    (Seq<char>, Option<String>, Option<u32>),
>
    decreases frames.len(),
{
    let n = if frames.len() < max_depth {
        frames.len() as int
    } else {
        max_depth as int
    };
    kept_prefix(frames, n, blocklist)
}

/// The kept symbols of the first `n` frames.
pub open spec fn kept_prefix(frames: Seq<Seq<SymbolInfo>>, n: int, blocklist: Seq<Seq<char>>) -> Seq<
    (Seq<char>, Option<String>, Option<u32>),
>
    decreases n,
{
    if n <= 0 || n > frames.len() {
        Seq::empty()
    } else {
        kept_prefix(frames, n - 1, blocklist) + kept_symbols(frames[n - 1], blocklist)
    }
}

/// The kept symbols of one frame.
pub open spec fn kept_symbols(syms: Seq<SymbolInfo>, blocklist: Seq<Seq<char>>) -> Seq<
    (Seq<char>, Option<String>, Option<u32>),
>
    decreases syms.len(),
{
    if syms.len() == 0 {
        Seq::empty()
    } else {
        let prev = kept_symbols(syms.drop_last(), blocklist);
        let s = syms.last();
        let name = name_or_unknown(s.name);
        if blocked(name, blocklist) {
            prev
        } else {
            prev.push((name, s.file, s.line))
        }
    }
}

pub open spec fn frames_view(fs: Seq<FrameInfo>) -> Seq<(Seq<char>, Option<String>, Option<u32>)> {
    fs.map_values(|f: FrameInfo| (f.name@, f.file, f.line))
}

fn copy_opt_string(o: &Option<String>) -> (r: Option<String>)
    ensures
        r == *o,
{
    match o {
        Some(s) => Some(s.clone()),
        None => None,
    }
}

/// Keeps, of the first `max_depth` frames of a resolved backtrace, the
/// symbols that are not left out.
pub fn select_frames(frames: &Vec<Vec<SymbolInfo>>, max_depth: usize, blocklist: &Vec<String>) -> (r:
    Vec<FrameInfo>)
    ensures
        frames_view(r@) == kept_frames(
            frames@.map_values(|f: Vec<SymbolInfo>| f@),
            max_depth,
            prefixes(blocklist@),
        ),
{
    let ghost fv = frames@.map_values(|f: Vec<SymbolInfo>| f@);
    let ghost bl = prefixes(blocklist@);
    let n: usize = if frames.len() < max_depth {
        frames.len()
    } else {
        max_depth
    };
    let mut out: Vec<FrameInfo> = Vec::new();
    let mut i: usize = 0;
    while i < n
        invariant
            i <= n,
            n <= frames@.len(),
            fv == frames@.map_values(|f: Vec<SymbolInfo>| f@),
            bl == prefixes(blocklist@),
            frames_view(out@) == kept_prefix(fv, i as int, bl),
        decreases n - i,
    {
        let syms = &frames[i];
        assert(fv[i as int] == syms@);
        let ghost base = frames_view(out@);
        let mut j: usize = 0;
        while j < syms.len()
            invariant
                j <= syms@.len(),
                bl == prefixes(blocklist@),
                frames_view(out@) == base + kept_symbols(syms@.take(j as int), bl),
            decreases syms@.len() - j,
        {
            proof {
                assert(syms@.take(j + 1).drop_last() =~= syms@.take(j as int));
                assert(syms@.take(j + 1).last() == syms@[j as int]);
            }
            let s = &syms[j];
            let name = match &s.name {
                Some(nm) => nm.clone(),
                None => String::from_str("<unknown>"),
            };
            let ghost before = out@;
            if !frame_blocked(name.as_str(), blocklist) {
                out.push(FrameInfo { name, file: copy_opt_string(&s.file), line: s.line });
                assert(frames_view(out@) =~= frames_view(before).push(
                    (name_or_unknown(s.name), s.file, s.line),
                ));
            }
            j = j + 1;
        }
        assert(syms@.take(syms@.len() as int) =~= syms@);
        i = i + 1;
    }
    out
}


#[verifier::external_type_specification]
#[verifier::external_body]
pub struct ExBacktrace(backtrace::Backtrace);

/// Calls `Backtrace::resolve` on a captured backtrace and lists, frame by
/// frame (`Backtrace::frames`, then `BacktraceFrame::symbols`), each
/// symbol's name (`BacktraceSymbol::name`), file (`filename`) and line
/// (`lineno`) as the backtrace crate reports them. What it finds depends on
/// the running binary and its debug information, so nothing is stated of
/// the result.
#[verifier::external_body]
fn resolve_symbols(bt: backtrace::Backtrace) -> (r: Vec<Vec<SymbolInfo>>) {
    let mut bt = bt;
    bt.resolve();
    bt.frames().iter().map(|f| f.symbols().iter().map(|s| SymbolInfo {
        name: s.name().map(|n| n.to_string()),
        file: s.filename().map(|p| p.display().to_string()),
        line: s.lineno(),
    }).collect()).collect()
}

/// Symbolizes a captured backtrace and keeps, of its first `max_depth`
/// frames, the symbols that are not left out.
pub fn symbolicate_backtrace(bt: backtrace::Backtrace, max_depth: usize, blocklist: &Vec<String>) -> (r:
    Vec<FrameInfo>)
    ensures
        exists|fs: Seq<Seq<SymbolInfo>>|
            frames_view(r@) == #[trigger] kept_frames(fs, max_depth, prefixes(blocklist@)),
{
    let frames = resolve_symbols(bt);
    select_frames(&frames, max_depth, blocklist)
}


// ─── flat counts ────────────────────────────────────────────────────────────

/// A sample's frames, leaf first.
pub type FrameSeq = Seq<(Seq<char>, Option<String>, Option<u32>)>;

/// Samples per leaf symbol, in order of first sight, with the file and line
/// of that first sight.
pub open spec fn leaf_rows(ss: Seq<FrameSeq>) -> Seq<(Seq<char>, Option<String>, Option<u32>, nat)>
    decreases ss.len(),
{
    if ss.len() == 0 {
        Seq::empty()
    } else {
        let prev = leaf_rows(ss.drop_last());
        let s = ss.last();
        if s.len() == 0 {
            prev
        } else {
            let names = prev.map_values(|r: (Seq<char>, Option<String>, Option<u32>, nat)| r.0);
            if names.contains(s[0].0) {
                let p = names.index_of(s[0].0);
                prev.update(p, (prev[p].0, prev[p].1, prev[p].2, prev[p].3 + 1))
            } else {
                prev.push((s[0].0, s[0].1, s[0].2, 1nat))
            }
        }
    }
}

/// The sample counts of the leaf symbols, in order of first sight.
pub open spec fn leaf_self_counts(ss: Seq<FrameSeq>) -> Seq<u64> {
    leaf_rows(ss).map_values(|x: (Seq<char>, Option<String>, Option<u32>, nat)| x.3 as u64)
}

/// Whether a frame of `s` is named `name`.
pub open spec fn appears(s: FrameSeq, name: Seq<char>) -> bool {
    exists|k: int| 0 <= k < s.len() && (#[trigger] s[k]).0 == name
}

/// In how many samples `name` appears (once per sample at most).
pub open spec fn total_count(ss: Seq<FrameSeq>, name: Seq<char>) -> nat
    decreases ss.len(),
{
    if ss.len() == 0 {
        0
    } else {
        total_count(ss.drop_last(), name) + if appears(ss.last(), name) {
            1nat
        } else {
            0nat
        }
    }
}

/// The samples of one leaf symbol.
pub struct FlatCount {
    pub name: String,
    pub file: Option<String>,
    pub line: Option<u32>,
    /// Samples with this symbol as the leaf frame.
    pub self_samples: u64,
    /// Samples with this symbol anywhere in the stack.
    pub total_samples: u64,
}

pub open spec fn samples_view(ss: Seq<Vec<FrameInfo>>) -> Seq<FrameSeq> {
    ss.map_values(|s: Vec<FrameInfo>| frames_view(s@))
}

fn appears_in(s: &Vec<FrameInfo>, name: &String) -> (r: bool)
    ensures
        r == appears(frames_view(s@), name@),
{
    let ghost fv = frames_view(s@);
    let mut k: usize = 0;
    while k < s.len()
        invariant
            k <= s@.len(),
            fv == frames_view(s@),
            forall|j: int| 0 <= j < k ==> (#[trigger] fv[j]).0 != name@,
        decreases s@.len() - k,
    {
        assert(fv[k as int].0 == s@[k as int].name@);
        if s[k].name == *name {
            return true;
        }
        k = k + 1;
    }
    false
}

/// The leaf symbols counted so far.
pub open spec fn leaf_names(ss: Seq<FrameSeq>) -> Seq<Seq<char>> {
    leaf_rows(ss).map_values(|r: (Seq<char>, Option<String>, Option<u32>, nat)| r.0)
}

proof fn lemma_leaf_counts_bounded(ss: Seq<FrameSeq>)
    ensures
        forall|p: int| 0 <= p < leaf_rows(ss).len() ==> (#[trigger] leaf_rows(ss)[p]).3 <= ss.len(),
        leaf_names(ss).no_duplicates(),
    decreases ss.len(),
{
    if ss.len() > 0 {
        let pre = ss.drop_last();
        lemma_leaf_counts_bounded(pre);
        let prev = leaf_rows(pre);
        let cur = leaf_rows(ss);
        let s = ss.last();
        let names = prev.map_values(|r: (Seq<char>, Option<String>, Option<u32>, nat)| r.0);
        if s.len() > 0 {
            if names.contains(s[0].0) {
                let p = names.index_of(s[0].0);
                assert forall|q: int| 0 <= q < cur.len() implies (#[trigger] cur[q]).3 <= ss.len() by {
                    if q != p {
                        assert(cur[q] == prev[q]);
                    }
                }
                assert(leaf_names(ss) =~= leaf_names(pre)) by {
                    assert forall|q: int| 0 <= q < cur.len() implies leaf_names(ss)[q] == leaf_names(
                        pre,
                    )[q] by {
                        if q != p {
                            assert(cur[q] == prev[q]);
                        }
                    }
                }
            } else {
                assert forall|q: int| 0 <= q < cur.len() implies (#[trigger] cur[q]).3 <= ss.len() by {
                    if q < prev.len() {
                        assert(cur[q] == prev[q]);
                    }
                }
                let ln = leaf_names(ss);
                assert(ln =~= names.push(s[0].0));
                assert forall|a: int, b: int| 0 <= a < ln.len() && 0 <= b < ln.len() && a != b implies ln[a]
                    != ln[b] by {
                    if a < names.len() && b == names.len() {
                        assert(names.contains(ln[a]));
                    } else if b < names.len() && a == names.len() {
                        assert(names.contains(ln[b]));
                    }
                }
            }
        }
    }
}

proof fn lemma_total_bounded(ss: Seq<FrameSeq>, name: Seq<char>)
    ensures
        total_count(ss, name) <= ss.len(),
    decreases ss.len(),
{
    if ss.len() > 0 {
        lemma_total_bounded(ss.drop_last(), name);
    }
}

/// The parallel columns hold the rows `rows`.
pub open spec fn columns_hold(
    names: Seq<String>,
    files: Seq<Option<String>>,
    lines: Seq<Option<u32>>,
    selfs: Seq<u64>,
    rows: Seq<(Seq<char>, Option<String>, Option<u32>, nat)>,
) -> bool {
    &&& names.len() == rows.len()
    &&& files.len() == rows.len()
    &&& lines.len() == rows.len()
    &&& selfs.len() == rows.len()
    &&& forall|p: int|
        0 <= p < rows.len() ==> {
            &&& (#[trigger] names[p])@ == rows[p].0
            &&& files[p] == rows[p].1
            &&& lines[p] == rows[p].2
            &&& selfs[p] == rows[p].3
        }
}

/// The leaf symbols of `samples` with their sample counts, most samples
/// first (in order of first sight among equal counts).
pub fn flat_counts(samples: &Vec<Vec<FrameInfo>>) -> (r: Vec<FlatCount>)
    ensures
        r@.len() == leaf_rows(samples_view(samples@)).len(),
        exists|order: Seq<usize>|
            #[trigger] is_desc_order(leaf_self_counts(samples_view(samples@)), order) && forall|
                k: int,
            |
                0 <= k < r@.len() ==> {
                    let row = leaf_rows(samples_view(samples@))[order[k] as int];
                    &&& (#[trigger] r@[k]).name@ == row.0
                    &&& r@[k].file == row.1
                    &&& r@[k].line == row.2
                    &&& r@[k].self_samples == row.3
                    &&& r@[k].total_samples == total_count(samples_view(samples@), row.0)
                },
{
    let ghost sv = samples_view(samples@);
    let mut names: Vec<String> = Vec::new();
    let mut files: Vec<Option<String>> = Vec::new();
    let mut lines: Vec<Option<u32>> = Vec::new();
    let mut selfs: Vec<u64> = Vec::new();
    let mut i: usize = 0;
    while i < samples.len()
        invariant
            i <= samples@.len(),
            sv == samples_view(samples@),
            columns_hold(names@, files@, lines@, selfs@, leaf_rows(sv.take(i as int))),
        decreases samples@.len() - i,
    {
        proof {
            assert(sv.take(i + 1).drop_last() =~= sv.take(i as int));
            assert(sv.take(i + 1).last() == frames_view(samples@[i as int]@));
            assert(sv.take(i + 1).last() == sv[i as int]);
            lemma_leaf_counts_bounded(sv.take(i as int));
        }
        let s = &samples[i];
        if s.len() > 0 {
            let ghost prev = leaf_rows(sv.take(i as int));
            let ghost pnames = prev.map_values(|r: (Seq<char>, Option<String>, Option<u32>, nat)| r.0);
            assert(frames_view(s@)[0] == (s@[0].name@, s@[0].file, s@[0].line));
            let mut p: usize = 0;
            while p < names.len() && !(names[p] == s[0].name)
                invariant
                    p <= names@.len(),
                    names@.len() == prev.len(),
                    columns_hold(names@, files@, lines@, selfs@, prev),
                    s@.len() > 0,
                    pnames == prev.map_values(|r: (Seq<char>, Option<String>, Option<u32>, nat)| r.0),
                    forall|q: int| 0 <= q < names@.len() ==> (#[trigger] names@[q])@ == prev[q].0,
                    forall|q: int| 0 <= q < p ==> pnames[q] != s@[0].name@,
                decreases names@.len() - p,
            {
                assert(pnames[p as int] == prev[p as int].0);
                p = p + 1;
            }
            if p < names.len() {
                proof {
                    assert(pnames[p as int] == s@[0].name@);
                    assert(pnames.contains(s@[0].name@));
                    assert(pnames == leaf_names(sv.take(i as int)));
                    assert(pnames.index_of(s@[0].name@) == p as int) by {
                        let c = pnames.index_of(s@[0].name@);
                        assert(pnames[c] == s@[0].name@);
                    }
                    assert(prev[p as int].3 <= i);
                }
                let ghost os = selfs@;
                assert(columns_hold(names@, files@, lines@, os, prev));
                let c = selfs[p] + 1;
                selfs.set(p, c);
                proof {
                    let cur = leaf_rows(sv.take(i + 1));
                    assert(cur == prev.update(
                        p as int,
                        (prev[p as int].0, prev[p as int].1, prev[p as int].2, prev[p as int].3 + 1),
                    ));
                    assert forall|q: int| 0 <= q < cur.len() implies {
                        &&& (#[trigger] names@[q])@ == cur[q].0
                        &&& files@[q] == cur[q].1
                        &&& lines@[q] == cur[q].2
                        &&& selfs@[q] == cur[q].3
                    } by {
                        if q != p {
                            assert(cur[q] == prev[q]);
                            assert(selfs@[q] == os[q]);
                            assert(names@[q]@ == prev[q].0);
                        } else {
                            assert(names@[q]@ == prev[q].0);
                        }
                    }
                    assert(columns_hold(names@, files@, lines@, selfs@, cur));
                }
            } else {
                proof {
                    assert forall|q: int| 0 <= q < pnames.len() implies pnames[q] != s@[0].name@ by {}
                    assert(!pnames.contains(s@[0].name@));
                }
                let ghost (on, of, ol, os) = (names@, files@, lines@, selfs@);
                assert(columns_hold(on, of, ol, os, prev));
                names.push(s[0].name.clone());
                files.push(copy_opt_string(&s[0].file));
                lines.push(s[0].line);
                selfs.push(1);
                proof {
                    let cur = leaf_rows(sv.take(i + 1));
                    assert(cur == prev.push((s@[0].name@, s@[0].file, s@[0].line, 1nat)));
                    assert forall|q: int| 0 <= q < cur.len() implies {
                        &&& (#[trigger] names@[q])@ == cur[q].0
                        &&& files@[q] == cur[q].1
                        &&& lines@[q] == cur[q].2
                        &&& selfs@[q] == cur[q].3
                    } by {
                        if q < prev.len() {
                            assert(cur[q] == prev[q]);
                            assert(names@[q] == on[q] && files@[q] == of[q] && lines@[q] == ol[q]
                                && selfs@[q] == os[q]);
                            assert(on[q]@ == prev[q].0);
                        }
                    }
                    assert(columns_hold(names@, files@, lines@, selfs@, cur));
                }
            }
        } else {
            proof {
                assert(leaf_rows(sv.take(i + 1)) == leaf_rows(sv.take(i as int)));
                assert(columns_hold(names@, files@, lines@, selfs@, leaf_rows(sv.take(i + 1))));
            }
        }
        i = i + 1;
    }
    assert(sv.take(samples@.len() as int) =~= sv);
    let ghost rows = leaf_rows(sv);
    assert(selfs@ =~= leaf_self_counts(sv)) by {
        assert forall|p: int| 0 <= p < selfs@.len() implies selfs@[p] == leaf_self_counts(sv)[p] by {
            assert(names@[p]@ == rows[p].0);
        }
    }
    let order = order_desc(&selfs);
    let mut out: Vec<FlatCount> = Vec::new();
    let mut k: usize = 0;
    while k < order.len()
        invariant
            k <= order@.len(),
            sv == samples_view(samples@),
            rows == leaf_rows(sv),
            is_desc_order(selfs@, order@),
            columns_hold(names@, files@, lines@, selfs@, rows),
            out@.len() == k,
            forall|j: int|
                0 <= j < k ==> {
                    let row = rows[order@[j] as int];
                    &&& (#[trigger] out@[j]).name@ == row.0
                    &&& out@[j].file == row.1
                    &&& out@[j].line == row.2
                    &&& out@[j].self_samples == row.3
                    &&& out@[j].total_samples == total_count(sv, row.0)
                },
        decreases order@.len() - k,
    {
        let p = order[k];
        let name = &names[p];
        // samples in which the symbol appears
        let mut t: u64 = 0;
        let mut q: usize = 0;
        while q < samples.len()
            invariant
                q <= samples@.len(),
                sv == samples_view(samples@),
                t == total_count(sv.take(q as int), name@),
                t <= q,
            decreases samples@.len() - q,
        {
            proof {
                assert(sv.take(q + 1).drop_last() =~= sv.take(q as int));
                assert(sv.take(q + 1).last() == frames_view(samples@[q as int]@));
            }
            if appears_in(&samples[q], name) {
                t = t + 1;
            }
            q = q + 1;
        }
        assert(sv.take(samples@.len() as int) =~= sv);
        out.push(
            FlatCount {
                name: name.clone(),
                file: copy_opt_string(&files[p]),
                line: lines[p],
                self_samples: selfs[p],
                total_samples: t,
            },
        );
        k = k + 1;
    }
    out
}


// ─── call tree of samples ───────────────────────────────────────────────────

/// One node of the sample tree, stored flat: its parent is an earlier
/// entry (none for a root).
pub struct TrieEntry {
    pub parent: Option<usize>,
    pub name: String,
    pub file: Option<String>,
    pub line: Option<u32>,
    /// Samples whose leaf frame this node is.
    pub self_samples: u64,
    /// Samples whose stack passes through this node.
    pub total_samples: u64,
}

/// A node as the specification sees it.
pub struct NodeView {
    pub parent: Option<usize>,
    pub name: Seq<char>,
    pub file: Option<String>,
    pub line: Option<u32>,
    pub self_n: nat,
    pub total_n: nat,
}

pub open spec fn entry_view(e: TrieEntry) -> NodeView {
    NodeView {
        parent: e.parent,
        name: e.name@,
        file: e.file,
        line: e.line,
        self_n: e.self_samples as nat,
        total_n: e.total_samples as nat,
    }
}

pub open spec fn arena_view(a: Seq<TrieEntry>) -> Seq<NodeView> {
    a.map_values(|e: TrieEntry| entry_view(e))
}

/// The first node below `parent` named `name`, if any.
pub open spec fn child_named(a: Seq<NodeView>, parent: Option<usize>, name: Seq<char>) -> Option<int>
    decreases a.len(),
{
    if a.len() == 0 {
        None
    } else {
        match child_named(a.drop_last(), parent, name) {
            Some(i) => Some(i),
            None => if a.last().parent == parent && a.last().name == name {
                Some(a.len() - 1)
            } else {
                None
            },
        }
    }
}

/// The tree after one more sample whose stack, root first, is `path`,
/// entered below `parent`.
pub open spec fn insert_path(
    a: Seq<NodeView>,
    parent: Option<usize>,
    path: Seq<(Seq<char>, Option<String>, Option<u32>)>,
) -> Seq<NodeView>
    decreases path.len(),
{
    if path.len() == 0 {
        a
    } else {
        let f = path[0];
        let leaf = path.len() == 1;
        let (a1, i) = match child_named(a, parent, f.0) {
            Some(i) => (a, i),
            None => (
                a.push(
                    NodeView {
                        parent,
                        name: f.0,
                        file: f.1,
                        line: f.2,
                        self_n: 0,
                        total_n: 0,
                    },
                ),
                a.len() as int,
            ),
        };
        let n = a1[i];
        let a2 = a1.update(
            i,
            NodeView {
                total_n: n.total_n + 1,
                self_n: n.self_n + if leaf {
                    1nat
                } else {
                    0nat
                },
                ..n
            },
        );
        insert_path(a2, Some(i as usize), path.drop_first())
    }
}

/// The tree of a list of samples, each stack read root first (its frames
/// reversed).
pub open spec fn sample_tree(ss: Seq<FrameSeq>) -> Seq<NodeView>
    decreases ss.len(),
{
    if ss.len() == 0 {
        Seq::empty()
    } else {
        insert_path(sample_tree(ss.drop_last()), None, ss.last().reverse())
    }
}

/// Every node's parent comes before it.
pub open spec fn parents_first(a: Seq<NodeView>) -> bool {
    forall|i: int| 0 <= i < a.len() ==> ((#[trigger] a[i]).parent matches Some(p) ==> p < i)
}

proof fn lemma_child_named_bounds(a: Seq<NodeView>, parent: Option<usize>, name: Seq<char>)
    ensures
        child_named(a, parent, name) matches Some(i) ==> 0 <= i < a.len() && a[i].parent == parent
            && a[i].name == name,
        child_named(a, parent, name) is None ==> forall|k: int|
            0 <= k < a.len() ==> !((#[trigger] a[k]).parent == parent && a[k].name == name),
        child_named(a, parent, name) matches Some(i) ==> forall|k: int|
            0 <= k < i ==> !((#[trigger] a[k]).parent == parent && a[k].name == name),
    decreases a.len(),
{
    if a.len() > 0 {
        lemma_child_named_bounds(a.drop_last(), parent, name);
        assert forall|k: int| 0 <= k < a.len() - 1 implies #[trigger] a[k] == a.drop_last()[k] by {}
    }
}

fn find_child(a: &Vec<TrieEntry>, parent: Option<usize>, name: &String) -> (r: Option<usize>)
    ensures
        match child_named(arena_view(a@), parent, name@) {
            Some(i) => r matches Some(k) && k == i,
            None => r is None,
        },
{
    let ghost av = arena_view(a@);
    let mut i: usize = 0;
    while i < a.len()
        invariant
            i <= a@.len(),
            av == arena_view(a@),
            child_named(av.take(i as int), parent, name@) is None,
        decreases a@.len() - i,
    {
        proof {
            assert(av.take(i + 1).drop_last() =~= av.take(i as int));
            assert(av.take(i + 1).last() == entry_view(a@[i as int]));
        }
        if a[i].parent == parent && a[i].name == *name {
            proof {
                assert(child_named(av.take(i + 1), parent, name@) == Some(i as int));
                lemma_child_named_prefix(av, i + 1, parent, name@);
            }
            return Some(i);
        }
        i = i + 1;
    }
    assert(av.take(a@.len() as int) =~= av);
    None
}

proof fn lemma_child_named_prefix(a: Seq<NodeView>, n: int, parent: Option<usize>, name: Seq<char>)
    requires
        0 <= n <= a.len(),
        child_named(a.take(n), parent, name) is Some,
    ensures
        child_named(a, parent, name) == child_named(a.take(n), parent, name),
    decreases a.len() - n,
{
    if n < a.len() {
        assert(a.take(n + 1).drop_last() =~= a.take(n));
        lemma_child_named_prefix(a, n + 1, parent, name);
    } else {
        assert(a.take(n) =~= a);
    }
}

/// Enters one sample's stack (root first, from position `start` on) below
/// `parent`.
fn insert_stack(
    a: &mut Vec<TrieEntry>,
    parent: Option<usize>,
    path: &Vec<FrameInfo>,
    start: usize,
    bound: u64,
)
    requires
        start <= path@.len(),
        parent matches Some(p) ==> p < old(a)@.len(),
        parents_first(arena_view(old(a)@)),
        bound < u64::MAX,
        forall|k: int|
            0 <= k < old(a)@.len() ==> (#[trigger] old(a)@[k]).self_samples
                <= old(a)@[k].total_samples,
        forall|k: int|
            0 <= k < old(a)@.len() ==> (parent matches Some(p) && k <= p) || (#[trigger] old(
                a,
            )@[k]).total_samples <= bound,
        forall|k: int| 0 <= k < old(a)@.len() ==> (#[trigger] old(a)@[k]).total_samples <= bound + 1,
    ensures
        arena_view(final(a)@) == insert_path(
            arena_view(old(a)@),
            parent,
            frames_view(path@).skip(start as int),
        ),
        parents_first(arena_view(final(a)@)),
        final(a)@.len() >= old(a)@.len(),
        forall|k: int|
            0 <= k < final(a)@.len() ==> (#[trigger] final(a)@[k]).self_samples
                <= final(a)@[k].total_samples,
        forall|k: int| 0 <= k < final(a)@.len() ==> (#[trigger] final(a)@[k]).total_samples <= bound + 1,
        forall|k: int|
            0 <= k < old(a)@.len() && (parent matches Some(p) && k <= p) ==> #[trigger] final(a)@[k]
                == old(a)@[k],
    decreases path@.len() - start,
{
    let ghost av = arena_view(a@);
    let ghost pv = frames_view(path@).skip(start as int);
    if start == path.len() {
        assert(pv.len() == 0);
        return;
    }
    proof {
        assert(pv[0] == (path@[start as int].name@, path@[start as int].file, path@[start as int].line));
        assert(pv.drop_first() =~= frames_view(path@).skip(start + 1));
        lemma_child_named_bounds(av, parent, path@[start as int].name@);
    }
    let leaf = start + 1 == path.len();
    let i = match find_child(a, parent, &path[start].name) {
        Some(i) => i,
        None => {
            a.push(
                TrieEntry {
                    parent,
                    name: path[start].name.clone(),
                    file: copy_opt_string(&path[start].file),
                    line: path[start].line,
                    self_samples: 0,
                    total_samples: 0,
                },
            );
            proof {
                assert(arena_view(a@) =~= av.push(
                    NodeView {
                        parent,
                        name: path@[start as int].name@,
                        file: path@[start as int].file,
                        line: path@[start as int].line,
                        self_n: 0,
                        total_n: 0,
                    },
                ));
            }
            a.len() - 1
        },
    };
    let ghost a1 = arena_view(a@);
    let e = a.remove(i);
    let TrieEntry { parent: ep, name: en, file: ef, line: el, self_samples: es, total_samples: et } = e;
    let ne = TrieEntry {
        parent: ep,
        name: en,
        file: ef,
        line: el,
        self_samples: if leaf {
            es + 1
        } else {
            es
        },
        total_samples: et + 1,
    };
    a.insert(i, ne);
    proof {
        let n = a1[i as int];
        assert(arena_view(a@) =~= a1.update(
            i as int,
            NodeView {
                total_n: n.total_n + 1,
                self_n: n.self_n + if leaf {
                    1nat
                } else {
                    0nat
                },
                ..n
            },
        ));
    }
    proof {
        let fa = arena_view(a@);
        assert forall|k: int| 0 <= k < fa.len() implies ((#[trigger] fa[k]).parent matches Some(q) ==> q < k) by {
            assert(fa[k].parent == a1[k].parent);
        }
    }
    insert_stack(a, Some(i), path, start + 1, bound);
}


fn reversed_frames(s: &Vec<FrameInfo>) -> (r: Vec<FrameInfo>)
    ensures
        frames_view(r@) == frames_view(s@).reverse(),
{
    let mut out: Vec<FrameInfo> = Vec::new();
    let mut k: usize = s.len();
    while k > 0
        invariant
            k <= s@.len(),
            frames_view(out@) == frames_view(s@).skip(k as int).reverse(),
        decreases k,
    {
        k = k - 1;
        let ghost before = out@;
        out.push(FrameInfo { name: s[k].name.clone(), file: copy_opt_string(&s[k].file), line: s[k].line });
        proof {
            let t = frames_view(s@);
            assert(frames_view(out@) =~= frames_view(before).push(t[k as int]));
            assert(t.skip(k as int).reverse() =~= t.skip(k + 1).reverse().push(t[k as int]));
        }
    }
    assert(frames_view(s@).skip(0) =~= frames_view(s@));
    out
}

/// The sample tree of `samples`, stored flat: each sample's stack is read
/// from its outermost frame to its leaf; a node counts the samples passing
/// through it and those ending in it.
pub fn build_sample_tree(samples: &Vec<Vec<FrameInfo>>) -> (r: Vec<TrieEntry>)
    ensures
        arena_view(r@) == sample_tree(samples_view(samples@)),
        parents_first(arena_view(r@)),
        forall|k: int|
            0 <= k < r@.len() ==> (#[trigger] r@[k]).self_samples <= r@[k].total_samples
                && r@[k].total_samples <= samples@.len(),
{
    let ghost sv = samples_view(samples@);
    let mut a: Vec<TrieEntry> = Vec::new();
    let mut i: usize = 0;
    assert(arena_view(a@) =~= Seq::<NodeView>::empty());
    while i < samples.len()
        invariant
            i <= samples@.len(),
            sv == samples_view(samples@),
            arena_view(a@) == sample_tree(sv.take(i as int)),
            parents_first(arena_view(a@)),
            forall|k: int|
                0 <= k < a@.len() ==> (#[trigger] a@[k]).self_samples <= a@[k].total_samples
                    && a@[k].total_samples <= i,
        decreases samples@.len() - i,
    {
        proof {
            assert(sv.take(i + 1).drop_last() =~= sv.take(i as int));
            assert(sv.take(i + 1).last() == frames_view(samples@[i as int]@));
        }
        let path = reversed_frames(&samples[i]);
        assert(frames_view(path@).skip(0) =~= frames_view(path@));
        insert_stack(&mut a, None, &path, 0, i as u64);
        i = i + 1;
    }
    assert(sv.take(samples@.len() as int) =~= sv);
    a
}

/// The positions below node `i` among the first `n` entries, in order.
pub open spec fn children_upto(a: Seq<NodeView>, i: int, n: int) -> Seq<int>
    decreases n,
{
    if n <= 0 {
        Seq::empty()
    } else if a[n - 1].parent == Some(i as usize) {
        children_upto(a, i, n - 1).push(n - 1)
    } else {
        children_upto(a, i, n - 1)
    }
}

/// A node of the sample tree with the nodes below it.
pub struct SampleTree {
    pub name: String,
    pub file: Option<String>,
    pub line: Option<u32>,
    pub self_samples: u64,
    pub total_samples: u64,
    pub children: Vec<SampleTree>,
}

/// `t` stands for entry `e`, apart from the nodes below.
pub open spec fn shows(t: SampleTree, e: NodeView) -> bool {
    &&& t.name@ == e.name
    &&& t.file == e.file
    &&& t.line == e.line
    &&& t.self_samples == e.self_n
    &&& t.total_samples == e.total_n
}

fn copy_name(s: &String) -> (r: String)
    ensures
        r@ == s@,
{
    s.clone()
}

/// Node `i` of the flat tree with everything below it, children in the
/// order they were first seen.
pub fn node_at(a: &Vec<TrieEntry>, i: usize) -> (r: SampleTree)
    requires
        i < a@.len(),
        parents_first(arena_view(a@)),
    ensures
        shows(r, arena_view(a@)[i as int]),
        r.children@.len() == children_upto(arena_view(a@), i as int, a@.len() as int).len(),
        forall|k: int|
            0 <= k < r.children@.len() ==> shows(
                #[trigger] r.children@[k],
                arena_view(a@)[children_upto(arena_view(a@), i as int, a@.len() as int)[k]],
            ),
    decreases a@.len() - i,
{
    let ghost av = arena_view(a@);
    let n = a.len();
    let mut children: Vec<SampleTree> = Vec::new();
    let mut j: usize = i + 1;
    proof {
        assert forall|m: int| 0 <= m <= i + 1 implies children_upto(av, i as int, m).len() == 0 by {
            lemma_no_children_before(av, i as int, m);
        }
    }
    while j < a.len()
        invariant
            i < j <= a@.len(),
            av == arena_view(a@),
            parents_first(av),
            children@.len() == children_upto(av, i as int, j as int).len(),
            forall|k: int|
                0 <= k < children@.len() ==> shows(
                    #[trigger] children@[k],
                    av[children_upto(av, i as int, j as int)[k]],
                ),
        decreases a@.len() - j,
    {
        assert(av[j as int] == entry_view(a@[j as int]));
        if a[j].parent == Some(i) {
            let c = node_at(a, j);
            children.push(c);
            proof {
                let cu = children_upto(av, i as int, j + 1);
                assert(cu == children_upto(av, i as int, j as int).push(j as int));
                assert forall|k: int| 0 <= k < children@.len() implies shows(
                    #[trigger] children@[k],
                    av[cu[k]],
                ) by {
                    if k < children@.len() - 1 {
                        assert(cu[k] == children_upto(av, i as int, j as int)[k]);
                    }
                }
            }
        }
        j = j + 1;
    }
    let e = &a[i];
    SampleTree {
        name: copy_name(&e.name),
        file: copy_opt_string(&e.file),
        line: e.line,
        self_samples: e.self_samples,
        total_samples: e.total_samples,
        children,
    }
}

proof fn lemma_no_children_before(a: Seq<NodeView>, i: int, m: int)
    requires
        0 <= i < a.len(),
        i <= usize::MAX,
        m <= i + 1,
        parents_first(a),
    ensures
        children_upto(a, i, m).len() == 0,
    decreases m,
{
    if m > 0 {
        lemma_no_children_before(a, i, m - 1);
        assert(a[m - 1].parent matches Some(p) ==> p < m - 1);
    }
}

/// The positions of the roots among the first `n` entries, in order.
pub open spec fn root_positions(a: Seq<NodeView>, n: int) -> Seq<usize>
    decreases n,
{
    if n <= 0 {
        Seq::empty()
    } else if a[n - 1].parent is None {
        root_positions(a, n - 1).push((n - 1) as usize)
    } else {
        root_positions(a, n - 1)
    }
}

/// The sample totals of the roots, in order.
pub open spec fn root_totals(a: Seq<TrieEntry>) -> Seq<u64> {
    root_positions(arena_view(a), a.len() as int).map_values(|p: usize| a[p as int].total_samples)
}

/// `t` stands for entry `p` of `a` with the nodes directly below it.
pub open spec fn shows_with_children(t: SampleTree, a: Seq<NodeView>, p: int) -> bool {
    let cs = children_upto(a, p, a.len() as int);
    &&& shows(t, a[p])
    &&& t.children@.len() == cs.len()
    &&& forall|k: int| 0 <= k < t.children@.len() ==> shows(#[trigger] t.children@[k], a[cs[k]])
}

proof fn lemma_root_positions_bounds(a: Seq<NodeView>, n: int)
    requires
        0 <= n <= a.len(),
        n <= usize::MAX,
    ensures
        forall|k: int|
            0 <= k < root_positions(a, n).len() ==> #[trigger] root_positions(a, n)[k] < n
                && a[root_positions(a, n)[k] as int].parent is None,
    decreases n,
{
    if n > 0 {
        lemma_root_positions_bounds(a, n - 1);
        let prev = root_positions(a, n - 1);
        assert forall|k: int| 0 <= k < root_positions(a, n).len() implies #[trigger] root_positions(
            a,
            n,
        )[k] < n && a[root_positions(a, n)[k] as int].parent is None by {
            if k < prev.len() {
                assert(prev[k] < n - 1 && a[prev[k] as int].parent is None);
            }
        }
    }
}

/// The roots of the flat tree, most samples first (in order of first sight
/// among equal counts), each with everything below it.
pub fn tree_roots(a: &Vec<TrieEntry>) -> (r: Vec<SampleTree>)
    requires
        parents_first(arena_view(a@)),
    ensures
        r@.len() == root_positions(arena_view(a@), a@.len() as int).len(),
        exists|order: Seq<usize>|
            #[trigger] is_desc_order(root_totals(a@), order) && forall|k: int|
                0 <= k < r@.len() ==> shows_with_children(
                    #[trigger] r@[k],
                    arena_view(a@),
                    root_positions(arena_view(a@), a@.len() as int)[order[k] as int] as int,
                ),
{
    let ghost av = arena_view(a@);
    let mut idx: Vec<usize> = Vec::new();
    let mut keys: Vec<u64> = Vec::new();
    let mut i: usize = 0;
    while i < a.len()
        invariant
            i <= a@.len(),
            av == arena_view(a@),
            idx@ == root_positions(av, i as int),
            keys@ == idx@.map_values(|p: usize| a@[p as int].total_samples),
        decreases a@.len() - i,
    {
        assert(av[i as int].parent == a@[i as int].parent);
        if a[i].parent.is_none() {
            idx.push(i);
            keys.push(a[i].total_samples);
        }
        i = i + 1;
        assert(keys@ =~= idx@.map_values(|p: usize| a@[p as int].total_samples));
    }
    proof {
        lemma_root_positions_bounds(av, a@.len() as int);
    }
    assert(keys@ == root_totals(a@));
    let order = order_desc(&keys);
    let mut out: Vec<SampleTree> = Vec::new();
    let mut k: usize = 0;
    while k < order.len()
        invariant
            k <= order@.len(),
            av == arena_view(a@),
            is_desc_order(keys@, order@),
            parents_first(av),
            idx@ == root_positions(av, a@.len() as int),
            idx@.len() == keys@.len(),
            forall|m: int| 0 <= m < idx@.len() ==> #[trigger] idx@[m] < a@.len(),
            out@.len() == k,
            forall|m: int|
                0 <= m < k ==> shows_with_children(#[trigger] out@[m], av, idx@[order@[m] as int] as int),
        decreases order@.len() - k,
    {
        let p = idx[order[k]];
        let t = node_at(a, p);
        out.push(t);
        k = k + 1;
    }
    assert(is_desc_order(root_totals(a@), order@));
    out
}

} // verus!
