//! Decisions of the command-line profiler: the per-process collectors'
//! state, how functions are grouped into crates and modules, the session
//! window, and when a comparison fails the run.

use vstd::prelude::*;
use vstd::string::StringExecFns;
use crate::diff::DiffSummary;
use crate::sampler::{before_dc, module_of_parts, split_dc, split_double_colon};
use crate::text::chars_of;
use crate::scan::{string_of, trim, trimmed};

verus! {

/// CPU usage sampling state of one process.
pub struct CpuCollector {
    pub pid: u32,
    pub last_utime: u64,
    pub last_stime: u64,
    /// Clock reading of the previous sample, if any.
    pub last_sample_time: Option<u64>,
}

impl CpuCollector {
    /// Nothing sampled yet.
    pub fn new(pid: u32) -> (c: Self)
        ensures
            c.pid == pid && c.last_utime == 0 && c.last_stime == 0 && c.last_sample_time is None,
    {
        CpuCollector { pid, last_utime: 0, last_stime: 0, last_sample_time: None }
    }
}

/// Resident-memory sampling of one process.
pub struct MemoryCollector {
    pub pid: u32,
}

impl MemoryCollector {
    pub fn new(pid: u32) -> (c: Self)
        ensures
            c.pid == pid,
    {
        MemoryCollector { pid }
    }
}

/// System-call rate sampling of one process.
pub struct SyscallCollector {
    pub pid: u32,
    pub last_syscall_count: u64,
}

impl SyscallCollector {
    pub fn new(pid: u32) -> (c: Self)
        ensures
            c.pid == pid && c.last_syscall_count == 0,
    {
        SyscallCollector { pid, last_syscall_count: 0 }
    }
}

/// Thread and file-descriptor counting of one process.
pub struct ThreadFdCollector {
    pub pid: u32,
}

impl ThreadFdCollector {
    pub fn new(pid: u32) -> (c: Self)
        ensures
            c.pid == pid,
    {
        ThreadFdCollector { pid }
    }
}

/// `yes` or `no`.
pub fn yes_no(value: bool) -> (r: &'static str)
    ensures
        value ==> r@ == "yes"@,
        !value ==> r@ == "no"@,
{
    if value {
        "yes"
    } else {
        "no"
    }
}

fn same_str(a: &str, b: &str) -> (r: bool)
    ensures
        r == (a@ == b@),
{
    let x = String::from_str(a);
    let y = String::from_str(b);
    x == y
}

/// The crate a sampled function belongs to: the first `::`-separated piece
/// of its module path, or of its name when the module is `unknown`.
pub fn derive_crate(name: &str, module: &str) -> (r: String)
    ensures
        r@ == before_dc(
            if module@ != "unknown"@ {
                module@
            } else {
                name@
            },
        ),
{
    let source = if !same_str(module, "unknown") {
        module
    } else {
        name
    };
    let cs = chars_of(source);
    let parts = split_double_colon(&cs);
    proof {
        lemma_split_first_piece(cs@);
    }
    assert(parts@.map_values(|p: Vec<char>| p@)[0] == parts@[0]@);
    string_of(&parts[0])
}

proof fn lemma_split_first_piece(s: Seq<char>)
    ensures
        split_dc(s).len() > 0,
        split_dc(s)[0] == before_dc(s),
{
    crate::sampler::lemma_split_first(s);
}

/// The module a sampled function belongs to: its module path, unless that
/// is `unknown`; then the first two non-empty `::`-separated pieces of its
/// name (`unknown` when there is none).
pub fn derive_module(name: &str, module: &str) -> (r: String)
    ensures
        module@ != "unknown"@ ==> r@ == module@,
        module@ == "unknown"@ ==> r@ == module_of_parts(split_dc(name@)),
{
    if !same_str(module, "unknown") {
        return String::from_str(module);
    }
    let cs = chars_of(name);
    let parts = split_double_colon(&cs);
    crate::sampler::module_from_parts(&parts)
}

/// Which regressions fail a comparison run.
pub open spec fn fails(s: DiffSummary, fail_on: Seq<char>) -> bool {
    if fail_on == "any"@ || fail_on == "minor"@ {
        s.regressions_critical > 0 || s.regressions_moderate > 0 || s.regressions_minor > 0
    } else if fail_on == "moderate"@ {
        s.regressions_moderate > 0 || s.regressions_critical > 0
    } else {
        s.regressions_critical > 0
    }
}

/// The levels of `--fail-on` nest: at `critical` a run fails exactly when
/// there is a critical regression, at `moderate` when there is a moderate
/// or critical one, at `any` or `minor` when there is any regression; at
/// every level a critical regression fails the run, and a summary without
/// regressions never does.
pub proof fn lemma_fail_levels(s: DiffSummary, fail_on: Seq<char>)
    ensures
        fail_on == "critical"@ ==> (fails(s, fail_on) <==> s.regressions_critical > 0),
        fail_on == "moderate"@ ==> (fails(s, fail_on) <==> s.regressions_critical > 0
            || s.regressions_moderate > 0),
        (fail_on == "any"@ || fail_on == "minor"@) ==> (fails(s, fail_on) <==> s.regressions_critical
            > 0 || s.regressions_moderate > 0 || s.regressions_minor > 0),
        s.regressions_critical > 0 ==> fails(s, fail_on),
        s.regressions_critical == 0 && s.regressions_moderate == 0 && s.regressions_minor == 0
            ==> !fails(s, fail_on),
{
    reveal_strlit("critical");
    reveal_strlit("moderate");
    reveal_strlit("any");
    reveal_strlit("minor");
    assert("critical"@.len() == 8 && "moderate"@.len() == 8);
    assert("any"@.len() == 3 && "minor"@.len() == 5);
    assert("critical"@[0] == 'c' && "moderate"@[0] == 'm');
    assert("critical"@ != "moderate"@);
    assert("critical"@ != "any"@ && "critical"@ != "minor"@);
    assert("moderate"@ != "any"@ && "moderate"@ != "minor"@);
}

/// Whether a comparison fails the run: `any` and `minor` fail on any
/// regression, `moderate` on a moderate or critical one, `critical` (and
/// anything else) on a critical one.
pub fn should_fail(summary: &DiffSummary, fail_on: &str) -> (r: bool)
    ensures
        r == fails(*summary, fail_on@),
        fail_on@ == "critical"@ ==> (r <==> summary.regressions_critical > 0),
        fail_on@ == "moderate"@ ==> (r <==> summary.regressions_critical > 0
            || summary.regressions_moderate > 0),
        (fail_on@ == "any"@ || fail_on@ == "minor"@) ==> (r <==> summary.regressions_critical > 0
            || summary.regressions_moderate > 0 || summary.regressions_minor > 0),
        !r ==> summary.regressions_critical == 0,
{
    proof {
        lemma_fail_levels(*summary, fail_on@);
    }
    if same_str(fail_on, "any") {
        summary.has_any_regressions()
    } else if same_str(fail_on, "minor") {
        summary.regressions_minor > 0 || summary.regressions_moderate > 0
            || summary.regressions_critical > 0
    } else if same_str(fail_on, "moderate") {
        summary.regressions_moderate > 0 || summary.regressions_critical > 0
    } else if same_str(fail_on, "critical") {
        summary.has_critical_regressions()
    } else {
        summary.has_critical_regressions()
    }
}

/// The length of a session from its start and end timestamps in
/// milliseconds: whole seconds (at least one), and nanoseconds.
pub fn session_window(start_ms: u64, end_ms: u64) -> (r: (u64, u64))
    requires
        (if end_ms >= start_ms {
            end_ms - start_ms
        } else {
            0
        }) * 1_000_000 <= u64::MAX,
    ensures
        ({
            let ms = if end_ms >= start_ms {
                end_ms - start_ms
            } else {
                0
            };
            &&& r.0 == (if ms / 1000 >= 1 {
                ms / 1000
            } else {
                1
            })
            &&& r.1 == ms * 1_000_000
        }),
{
    let ms = end_ms.saturating_sub(start_ms);
    let secs = ms / 1000;
    let secs = if secs >= 1 {
        secs
    } else {
        1
    };
    (secs, ms * 1_000_000)
}

/// The largest of `values`, or zero when there is none.
pub fn peak(values: &Vec<u32>) -> (r: u32)
    ensures
        forall|i: int| 0 <= i < values@.len() ==> values@[i] <= r,
        values@.len() == 0 ==> r == 0,
        values@.len() > 0 ==> exists|i: int| 0 <= i < values@.len() && values@[i] == r,
{
    let mut m: u32 = 0;
    let mut i: usize = 0;
    while i < values.len()
        invariant
            i <= values@.len(),
            forall|k: int| 0 <= k < i ==> values@[k] <= m,
            i == 0 ==> m == 0,
            i > 0 ==> exists|k: int| 0 <= k < i && values@[k] == m,
        decreases values@.len() - i,
    {
        if values[i] > m || i == 0 {
            m = values[i];
        }
        i = i + 1;
    }
    m
}


/// Functions grouped by a key (their crate or module).
pub struct RollupGroups {
    /// The keys, each once, in order of first sight.
    pub names: Vec<String>,
    /// Per key, the sum of its functions' calls.
    pub calls: Vec<u64>,
    /// Per key, how many functions it has.
    pub function_count: Vec<u64>,
    /// Per function, the position of its key in `names`.
    pub group_of: Vec<usize>,
}

/// The distinct keys, in order of first sight.
pub open spec fn distinct_keys(keys: Seq<Seq<char>>) -> Seq<Seq<char>>
    decreases keys.len(),
{
    if keys.len() == 0 {
        Seq::empty()
    } else if distinct_keys(keys.drop_last()).contains(keys.last()) {
        distinct_keys(keys.drop_last())
    } else {
        distinct_keys(keys.drop_last()).push(keys.last())
    }
}

/// The sum of the calls of the functions whose key is `k`.
pub open spec fn group_calls(keys: Seq<Seq<char>>, calls: Seq<u64>, k: Seq<char>) -> u64
    decreases keys.len(),
{
    if keys.len() == 0 || calls.len() != keys.len() {
        0
    } else {
        let prev = group_calls(keys.drop_last(), calls.drop_last(), k);
        if keys.last() == k {
            crate::memory::wrap_add(prev, calls.last())
        } else {
            prev
        }
    }
}

/// The number of functions whose key is `k`.
pub open spec fn group_size(keys: Seq<Seq<char>>, k: Seq<char>) -> nat
    decreases keys.len(),
{
    if keys.len() == 0 {
        0
    } else {
        group_size(keys.drop_last(), k) + if keys.last() == k {
            1nat
        } else {
            0nat
        }
    }
}

proof fn lemma_distinct_unique(keys: Seq<Seq<char>>)
    ensures
        distinct_keys(keys).no_duplicates(),
        forall|i: int| 0 <= i < keys.len() ==> distinct_keys(keys).contains(#[trigger] keys[i]),
        forall|k: Seq<char>| distinct_keys(keys).contains(k) ==> keys.contains(k),
    decreases keys.len(),
{
    if keys.len() > 0 {
        let pre = keys.drop_last();
        lemma_distinct_unique(pre);
        let d = distinct_keys(pre);
        if !d.contains(keys.last()) {
            let e = d.push(keys.last());
            assert forall|a: int, b: int| 0 <= a < e.len() && 0 <= b < e.len() && a != b implies e[a]
                != e[b] by {
                if a < d.len() && b == d.len() {
                    assert(d.contains(e[a]));
                } else if b < d.len() && a == d.len() {
                    assert(d.contains(e[b]));
                }
            }
            assert(e[d.len() as int] == keys.last());
        }
        assert forall|i: int| 0 <= i < keys.len() implies distinct_keys(keys).contains(#[trigger] keys[i]) by {
            if i < keys.len() - 1 {
                assert(keys[i] == pre[i]);
                let j = choose|j: int| 0 <= j < d.len() && d[j] == pre[i];
                if !d.contains(keys.last()) {
                    assert(d.push(keys.last())[j] == keys[i]);
                }
            } else if !d.contains(keys.last()) {
                assert(d.push(keys.last())[d.len() as int] == keys.last());
            }
        }
        assert forall|k: Seq<char>| distinct_keys(keys).contains(k) implies keys.contains(k) by {
            if d.contains(k) {
                assert(pre.contains(k));
                let j = choose|j: int| 0 <= j < pre.len() && pre[j] == k;
                assert(keys[j] == k);
            } else {
                assert(k == keys.last());
                assert(keys[keys.len() - 1] == k);
            }
        }
    }
}

/// Groups functions by key: the distinct keys in order of first sight,
/// each with the sum of its functions' calls and their number, and for
/// every function the position of its key.
#[verifier::spinoff_prover]
pub fn group_rollups(keys: &Vec<String>, calls: &Vec<u64>) -> (r: RollupGroups)
    requires
        keys@.len() == calls@.len(),
    ensures
        ({
            let ks = keys@.map_values(|k: String| k@);
            let d = distinct_keys(ks);
            &&& r.names@.map_values(|k: String| k@) == d
            &&& r.calls@.len() == d.len()
            &&& r.function_count@.len() == d.len()
            &&& forall|g: int|
                0 <= g < d.len() ==> #[trigger] r.calls@[g] == group_calls(ks, calls@, d[g])
                    && r.function_count@[g] == group_size(ks, d[g])
            &&& r.group_of@.len() == keys@.len()
            &&& forall|i: int|
                0 <= i < keys@.len() ==> (#[trigger] r.group_of@[i]) < d.len() && d[r.group_of@[i] as int]
                    == ks[i]
        }),
{
    let ghost ks = keys@.map_values(|k: String| k@);
    let mut names: Vec<String> = Vec::new();
    let mut sums: Vec<u64> = Vec::new();
    let mut counts: Vec<u64> = Vec::new();
    let mut group_of: Vec<usize> = Vec::new();
    let mut i: usize = 0;
    while i < keys.len()
        invariant
            i <= keys@.len(),
            keys@.len() == calls@.len(),
            ks == keys@.map_values(|k: String| k@),
            names@.map_values(|k: String| k@) == distinct_keys(ks.take(i as int)),
            sums@.len() == names@.len(),
            counts@.len() == names@.len(),
            forall|g: int|
                0 <= g < names@.len() ==> #[trigger] sums@[g] == group_calls(
                    ks.take(i as int),
                    calls@.take(i as int),
                    names@[g]@,
                ) && counts@[g] == group_size(ks.take(i as int), names@[g]@) && counts@[g] <= i,
            group_of@.len() == i,
            forall|j: int|
                0 <= j < i ==> (#[trigger] group_of@[j]) < names@.len() && names@[group_of@[j] as int]@
                    == ks[j],
        decreases keys@.len() - i,
    {
        let ghost d = distinct_keys(ks.take(i as int));
        let ghost t1 = ks.take(i + 1);
        let ghost c1 = calls@.take(i + 1);
        proof {
            assert(t1.drop_last() =~= ks.take(i as int));
            assert(c1.drop_last() =~= calls@.take(i as int));
            assert(t1.last() == keys@[i as int]@);
            assert(c1.last() == calls@[i as int]);
            lemma_distinct_unique(ks.take(i as int));
        }
        let mut g: usize = 0;
        while g < names.len() && !(names[g] == keys[i])
            invariant
                g <= names@.len(),
                i < keys@.len(),
                names@.map_values(|k: String| k@) == d,
                forall|h: int| 0 <= h < g ==> names@[h]@ != keys@[i as int]@,
            decreases names@.len() - g,
        {
            g = g + 1;
        }
        let ghost old_names = names@;
        let ghost old_sums = sums@;
        let ghost old_counts = counts@;
        assert(forall|h: int|
            0 <= h < names@.len() ==> #[trigger] old_sums[h] == group_calls(
                ks.take(i as int),
                calls@.take(i as int),
                names@[h]@,
            ) && old_counts[h] == group_size(ks.take(i as int), names@[h]@) && old_counts[h] <= i) by {
            assert forall|h: int| 0 <= h < names@.len() implies #[trigger] old_sums[h] == group_calls(
                ks.take(i as int),
                calls@.take(i as int),
                names@[h]@,
            ) && old_counts[h] == group_size(ks.take(i as int), names@[h]@) && old_counts[h] <= i by {
                assert(sums@[h] == old_sums[h]);
            }
        }
        if g < names.len() {
            let s = crate::memory::add_wrapping(sums[g], calls[i]);
            sums.set(g, s);
            let c = counts[g] + 1;
            counts.set(g, c);
            group_of.push(g);
            proof {
                assert(d[g as int] == names@[g as int]@);
                assert(d.contains(keys@[i as int]@));
                assert(distinct_keys(t1) == d);
                assert forall|h: int| 0 <= h < names@.len() implies #[trigger] sums@[h] == group_calls(
                    t1,
                    c1,
                    names@[h]@,
                ) && counts@[h] == group_size(t1, names@[h]@) && counts@[h] <= i + 1 by {
                    assert(old_sums[h] == group_calls(
                        ks.take(i as int),
                        calls@.take(i as int),
                        names@[h]@,
                    ));
                    if h != g {
                        assert(names@[h]@ != names@[g as int]@) by {
                            assert(d[h] == names@[h]@);
                            assert(d[g as int] == names@[g as int]@);
                        }
                        assert(old_sums[h] == sums@[h]);
                        assert(old_counts[h] == counts@[h]);
                    }
                }
            }
        } else {
            proof {
                assert forall|h: int| 0 <= h < d.len() implies d[h] != keys@[i as int]@ by {
                    assert(d[h] == names@[h]@);
                }
                assert(!d.contains(keys@[i as int]@));
                assert(distinct_keys(t1) == d.push(keys@[i as int]@));
                assert(group_calls(ks.take(i as int), calls@.take(i as int), keys@[i as int]@) == 0) by {
                    lemma_absent_group(ks.take(i as int), calls@.take(i as int), keys@[i as int]@);
                }
            }
            names.push(keys[i].clone());
            sums.push(calls[i]);
            counts.push(1);
            group_of.push(g);
            proof {
                assert(names@.map_values(|k: String| k@) =~= d.push(keys@[i as int]@));
                assert forall|h: int| 0 <= h < names@.len() implies #[trigger] sums@[h] == group_calls(
                    t1,
                    c1,
                    names@[h]@,
                ) && counts@[h] == group_size(t1, names@[h]@) && counts@[h] <= i + 1 by {
                    if h < old_names.len() {
                        assert(names@[h] == old_names[h]);
                        assert(names@[h]@ == d[h]);
                        assert(d[h] != keys@[i as int]@);
                    } else {
                        lemma_absent_group(ks.take(i as int), calls@.take(i as int), keys@[i as int]@);
                    }
                }
            }
        }
        proof {
            assert forall|j: int| 0 <= j < i + 1 implies (#[trigger] group_of@[j]) < names@.len()
                && names@[group_of@[j] as int]@ == ks[j] by {
                if j < i {
                    assert(names@[group_of@[j] as int] == old_names[group_of@[j] as int]);
                }
            }
        }
        i = i + 1;
    }
    proof {
        assert(ks.take(keys@.len() as int) =~= ks);
        assert(calls@.take(keys@.len() as int) =~= calls@);
        let d = distinct_keys(ks);
        assert forall|g: int| 0 <= g < d.len() implies d[g] == names@[g]@ by {
            assert(names@.map_values(|k: String| k@)[g] == names@[g]@);
        }
    }
    RollupGroups { names, calls: sums, function_count: counts, group_of }
}

proof fn lemma_absent_group(keys: Seq<Seq<char>>, calls: Seq<u64>, k: Seq<char>)
    requires
        !distinct_keys(keys).contains(k),
        keys.len() == calls.len(),
    ensures
        group_calls(keys, calls, k) == 0,
        group_size(keys, k) == 0,
    decreases keys.len(),
{
    if keys.len() > 0 {
        lemma_distinct_unique(keys);
        assert(keys.last() != k) by {
            assert(distinct_keys(keys).contains(keys[keys.len() - 1]));
        }
        lemma_distinct_unique(keys.drop_last());
        assert(!distinct_keys(keys.drop_last()).contains(k)) by {
            if distinct_keys(keys.drop_last()).contains(k) {
                assert(keys.drop_last().contains(k));
                let j = choose|j: int| 0 <= j < keys.drop_last().len() && keys.drop_last()[j] == k;
                assert(keys[j] == k);
                assert(distinct_keys(keys).contains(keys[j]));
            }
        }
        lemma_absent_group(keys.drop_last(), calls.drop_last(), k);
    }
}

/// A command typed at the live dashboard.
#[derive(Clone, Copy, PartialEq, Eq, Structural, Debug)]
pub enum LiveControl {
    Quit,
    ToggleCompact,
    Slow,
    Fast,
}

/// The command a typed line asks for, its surrounding whitespace ignored:
/// `q`/`quit`, `c`/`compact`, `s`/`slow`, `f`/`fast`; anything else asks
/// for nothing.
pub open spec fn control_of(line: Seq<char>) -> Option<LiveControl> {
    let t = trimmed(line);
    if t == "q"@ || t == "quit"@ {
        Some(LiveControl::Quit)
    } else if t == "c"@ || t == "compact"@ {
        Some(LiveControl::ToggleCompact)
    } else if t == "s"@ || t == "slow"@ {
        Some(LiveControl::Slow)
    } else if t == "f"@ || t == "fast"@ {
        Some(LiveControl::Fast)
    } else {
        None
    }
}

fn is_word(t: &Vec<char>, w: &str) -> (r: bool)
    ensures
        r == (t@ == w@),
{
    let wc = chars_of(w);
    if t.len() != wc.len() {
        return false;
    }
    let mut i: usize = 0;
    while i < t.len()
        invariant
            i <= t@.len(),
            t@.len() == wc@.len(),
            wc@ == w@,
            forall|k: int| 0 <= k < i ==> t@[k] == wc@[k],
        decreases t@.len() - i,
    {
        if t[i] != wc[i] {
            return false;
        }
        i = i + 1;
    }
    assert(t@ =~= wc@);
    true
}

/// Reads one line typed at the live dashboard.
pub fn parse_control(line: &str) -> (r: Option<LiveControl>)
    ensures
        r == control_of(line@),
{
    let t = trim(&chars_of(line));
    if is_word(&t, "q") || is_word(&t, "quit") {
        Some(LiveControl::Quit)
    } else if is_word(&t, "c") || is_word(&t, "compact") {
        Some(LiveControl::ToggleCompact)
    } else if is_word(&t, "s") || is_word(&t, "slow") {
        Some(LiveControl::Slow)
    } else if is_word(&t, "f") || is_word(&t, "fast") {
        Some(LiveControl::Fast)
    } else {
        None
    }
}

/// Whether the live dashboard is drawn again: once per elapsed second, and
/// whenever an event occurred.
pub fn should_refresh(last_refresh_secs: u64, elapsed_secs: u64, event_occurred: bool) -> (r: bool)
    ensures
        r == (last_refresh_secs != elapsed_secs || event_occurred),
{
    !(last_refresh_secs == elapsed_secs && !event_occurred)
}

/// Whether the sampling loop of a session ends: when a stop was asked for,
/// or when a set duration (in seconds; zero for none) has passed.
pub fn session_over(stop_requested: bool, duration_secs: u64, elapsed_ns: u64) -> (r: bool)
    ensures
        r == (stop_requested || (duration_secs > 0 && elapsed_ns >= duration_secs * 1_000_000_000)),
{
    if stop_requested {
        return true;
    }
    if duration_secs == 0 {
        return false;
    }
    if duration_secs > u64::MAX / 1_000_000_000 {
        return false;
    }
    elapsed_ns >= duration_secs * 1_000_000_000
}

/// How long a stack-sampling run lasts, in seconds: the session's duration,
/// or when none is set an hour with the macOS sampler and thirty seconds
/// with perf.
pub fn sampling_window_secs(duration_secs: u32, macos_sampler: bool) -> (r: u32)
    ensures
        duration_secs != 0 ==> r == duration_secs,
        duration_secs == 0 && macos_sampler ==> r == 3600,
        duration_secs == 0 && !macos_sampler ==> r == 30,
{
    if duration_secs != 0 {
        duration_secs
    } else if macos_sampler {
        3600
    } else {
        30
    }
}

} // verus!
