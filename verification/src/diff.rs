//! Session diff: which functions of a baseline session are matched by the
//! current one, which were removed and which are new; how the outcomes are
//! tallied; and the order in which they are reported (largest change
//! first).
//!
//! The percentage arithmetic that decides whether a matched function
//! regressed is done by the caller in floating point; it hands this module
//! the results of its threshold comparisons.

use vstd::prelude::*;
use crate::order::{is_desc_order, order_desc};

verus! {

/// Which timing metric is the primary regression signal.
#[derive(Clone, Copy, PartialEq, Eq, Structural, Debug)]
pub enum PrimaryMetric {
    /// Mean inclusive time.
    MeanNs,
    /// P99 inclusive time.
    P99Ns,
    /// P95 inclusive time.
    P95Ns,
    /// Median.
    P50Ns,
    /// Self time (excludes callees).
    SelfNs,
}

/// How severe a regression is.
#[derive(Clone, Copy, PartialEq, Eq, Structural, Debug, PartialOrd, Ord, Hash)]
pub enum RegressionSeverity {
    /// Under twice the threshold.
    Minor,
    /// Two to five times the threshold.
    Moderate,
    /// Over five times the threshold.
    Critical,
}

/// What became of a function between the two sessions.
#[derive(Clone, Copy, PartialEq, Eq, Structural, Debug)]
pub enum DiffStatus {
    Regression,
    Improvement,
    Unchanged,
    New,
    Removed,
}

/// Counts of each kind of outcome.
#[derive(Clone, Copy, PartialEq, Eq, Structural, Debug)]
pub struct DiffSummary {
    pub regressions_critical: u32,
    pub regressions_moderate: u32,
    pub regressions_minor: u32,
    pub improvements: u32,
    pub unchanged: u32,
    pub new_functions: u32,
    pub removed_functions: u32,
    pub memory_regressions: u32,
}

impl Default for DiffSummary {
    fn default() -> (s: Self)
        ensures
            s == (DiffSummary {
                regressions_critical: 0,
                regressions_moderate: 0,
                regressions_minor: 0,
                improvements: 0,
                unchanged: 0,
                new_functions: 0,
                removed_functions: 0,
                memory_regressions: 0,
            }),
    {
        DiffSummary {
            regressions_critical: 0,
            regressions_moderate: 0,
            regressions_minor: 0,
            improvements: 0,
            unchanged: 0,
            new_functions: 0,
            removed_functions: 0,
            memory_regressions: 0,
        }
    }
}

impl DiffSummary {
    /// Whether any regression is critical.
    pub fn has_critical_regressions(&self) -> (r: bool)
        ensures
            r == (self.regressions_critical > 0),
    {
        self.regressions_critical > 0
    }

    /// Whether there is any regression at all.
    pub fn has_any_regressions(&self) -> (r: bool)
        ensures
            r == (self.regressions_critical > 0 || self.regressions_moderate > 0
                || self.regressions_minor > 0),
    {
        self.regressions_critical > 0 || self.regressions_moderate > 0
            || self.regressions_minor > 0
    }
}

/// The timing metrics of one function that a diff can compare, the mean
/// taken in whole nanoseconds.
#[derive(Clone, Copy, PartialEq, Eq, Structural, Debug)]
pub struct MetricValues {
    pub mean_ns: u64,
    pub p99_ns: u64,
    pub p95_ns: u64,
    pub p50_ns: u64,
    pub self_ns: u64,
}

/// The value of metric `m`.
pub open spec fn metric_of(v: MetricValues, m: PrimaryMetric) -> u64 {
    match m {
        PrimaryMetric::MeanNs => v.mean_ns,
        PrimaryMetric::P99Ns => v.p99_ns,
        PrimaryMetric::P95Ns => v.p95_ns,
        PrimaryMetric::P50Ns => v.p50_ns,
        PrimaryMetric::SelfNs => v.self_ns,
    }
}

/// The value of the primary metric `m` among `values`.
pub fn primary_metric_value(values: &MetricValues, m: PrimaryMetric) -> (r: u64)
    ensures
        r == metric_of(*values, m),
{
    match m {
        PrimaryMetric::MeanNs => values.mean_ns,
        PrimaryMetric::P99Ns => values.p99_ns,
        PrimaryMetric::P95Ns => values.p95_ns,
        PrimaryMetric::P50Ns => values.p50_ns,
        PrimaryMetric::SelfNs => values.self_ns,
    }
}

/// The status of a function present in both sessions whose primary metric
/// went from `baseline` to `current`.
pub open spec fn status_of(
    baseline: u64,
    current: u64,
    noise_floor_ns: u64,
    above_regression: bool,
    below_improvement: bool,
) -> DiffStatus {
    let change = current - baseline;
    let magnitude = if change >= 0 {
        change
    } else {
        -change
    };
    if magnitude < noise_floor_ns {
        DiffStatus::Unchanged
    } else if above_regression {
        DiffStatus::Regression
    } else if below_improvement {
        DiffStatus::Improvement
    } else {
        DiffStatus::Unchanged
    }
}

/// The noise floor applies to every change: a change smaller than the
/// floor leaves a function unchanged whatever its percentages say; a
/// regression or an improvement is a change of at least the floor, in the
/// direction its threshold test found; and a function in both sessions is
/// never new or removed.
pub proof fn lemma_noise_floor_dominates(
    baseline: u64,
    current: u64,
    noise_floor_ns: u64,
    above_regression: bool,
    below_improvement: bool,
)
    ensures
        ({
            let s = status_of(baseline, current, noise_floor_ns, above_regression, below_improvement);
            let magnitude = if current >= baseline {
                current - baseline
            } else {
                baseline - current
            };
            &&& magnitude < noise_floor_ns ==> s == DiffStatus::Unchanged
            &&& s == DiffStatus::Regression ==> above_regression && magnitude >= noise_floor_ns
            &&& s == DiffStatus::Improvement ==> below_improvement && !above_regression
                && magnitude >= noise_floor_ns
            &&& magnitude >= noise_floor_ns && above_regression ==> s == DiffStatus::Regression
            &&& magnitude >= noise_floor_ns && !above_regression && below_improvement ==> s
                == DiffStatus::Improvement
            &&& s != DiffStatus::New && s != DiffStatus::Removed
        }),
{
}

/// Classifies a matched function. A change smaller than the noise floor is
/// no change; otherwise the change counts as a regression when its
/// percentage is above the regression threshold (`above_regression`), and
/// as an improvement when it is below minus the improvement threshold
/// (`below_improvement`).
pub fn classify(
    baseline: u64,
    current: u64,
    noise_floor_ns: u64,
    above_regression: bool,
    below_improvement: bool,
) -> (s: DiffStatus)
    requires
        baseline <= i64::MAX,
        current <= i64::MAX,
    ensures
        s == status_of(baseline, current, noise_floor_ns, above_regression, below_improvement),
        (if current >= baseline {
            current - baseline
        } else {
            baseline - current
        }) < noise_floor_ns ==> s == DiffStatus::Unchanged,
        s == DiffStatus::Regression ==> above_regression && (if current >= baseline {
            current - baseline
        } else {
            baseline - current
        }) >= noise_floor_ns,
        s == DiffStatus::Improvement ==> below_improvement && !above_regression && (if current
            >= baseline {
            current - baseline
        } else {
            baseline - current
        }) >= noise_floor_ns,
        s != DiffStatus::New && s != DiffStatus::Removed,
{
    proof {
        lemma_noise_floor_dominates(
            baseline,
            current,
            noise_floor_ns,
            above_regression,
            below_improvement,
        );
    }
    let change: i64 = current as i64 - baseline as i64;
    let magnitude: u64 = if change >= 0 {
        change as u64
    } else {
        (-change) as u64
    };
    if magnitude < noise_floor_ns {
        DiffStatus::Unchanged
    } else if above_regression {
        DiffStatus::Regression
    } else if below_improvement {
        DiffStatus::Improvement
    } else {
        DiffStatus::Unchanged
    }
}

/// The severity of a regression whose change is more than five times the
/// threshold (`over_five`), or at least twice it (`at_least_two`): above
/// five times it is critical, from two to five times moderate, below twice
/// minor.
pub fn severity_of(over_five: bool, at_least_two: bool) -> (r: RegressionSeverity)
    ensures
        over_five ==> r == RegressionSeverity::Critical,
        !over_five && at_least_two ==> r == RegressionSeverity::Moderate,
        !over_five && !at_least_two ==> r == RegressionSeverity::Minor,
{
    if over_five {
        RegressionSeverity::Critical
    } else if at_least_two {
        RegressionSeverity::Moderate
    } else {
        RegressionSeverity::Minor
    }
}

// ─── matching functions by name ────────────────────────────────────────────

/// A function of a session as the matching sees it.
pub struct FunctionKey {
    pub name: String,
    pub call_count: u64,
}

/// How an entry of one session relates to the other session. The numbers
/// are positions in the baseline and current lists.
#[derive(Clone, Copy, PartialEq, Eq, Structural, Debug)]
pub enum Pairing {
    Matched(usize, usize),
    Removed(usize),
    New(usize),
}

/// A function is compared only if it was called at least `min` times.
pub open spec fn qualifies(k: FunctionKey, min: u64) -> bool {
    k.call_count >= min
}

/// The last qualifying entry named `name`: when a name occurs more than
/// once, the last one stands for it.
pub open spec fn last_index(s: Seq<FunctionKey>, name: Seq<char>, min: u64) -> Option<int>
    decreases s.len(),
{
    if s.len() == 0 {
        None
    } else if qualifies(s.last(), min) && s.last().name@ == name {
        Some(s.len() - 1)
    } else {
        last_index(s.drop_last(), name, min)
    }
}

/// Whether entry `i` of `s` stands for its name.
pub open spec fn is_kept(s: Seq<FunctionKey>, i: int, min: u64) -> bool {
    0 <= i < s.len() && last_index(s, s[i].name@, min) == Some(i)
}

/// The pairings of the first `n` baseline entries, in baseline order: each
/// entry that stands for its name is matched with the entry that stands for
/// the same name in the current session, or is removed.
pub open spec fn baseline_part(b: Seq<FunctionKey>, c: Seq<FunctionKey>, min: u64, n: int) -> Seq<
    Pairing,
>
    decreases n,
{
    if n <= 0 {
        Seq::empty()
    } else {
        let prev = baseline_part(b, c, min, n - 1);
        let i = n - 1;
        if is_kept(b, i, min) {
            match last_index(c, b[i].name@, min) {
                Some(j) => prev.push(Pairing::Matched(i as usize, j as usize)),
                None => prev.push(Pairing::Removed(i as usize)),
            }
        } else {
            prev
        }
    }
}

/// The new functions among the first `n` current entries, in order: each
/// entry that stands for its name when the baseline has no such function.
pub open spec fn new_part(b: Seq<FunctionKey>, c: Seq<FunctionKey>, min: u64, n: int) -> Seq<
    Pairing,
>
    decreases n,
{
    if n <= 0 {
        Seq::empty()
    } else {
        let prev = new_part(b, c, min, n - 1);
        let j = n - 1;
        if is_kept(c, j, min) && last_index(b, c[j].name@, min) is None {
            prev.push(Pairing::New(j as usize))
        } else {
            prev
        }
    }
}

/// The pairings of two sessions: baseline entries first, then new ones.
pub open spec fn pairings(b: Seq<FunctionKey>, c: Seq<FunctionKey>, min: u64) -> Seq<Pairing> {
    baseline_part(b, c, min, b.len() as int) + new_part(b, c, min, c.len() as int)
}

proof fn lemma_last_index_step(s: Seq<FunctionKey>, name: Seq<char>, min: u64, i: int)
    requires
        0 <= i < s.len(),
    ensures
        last_index(s.take(i + 1), name, min) == (if qualifies(s[i], min) && s[i].name@ == name {
            Some(i)
        } else {
            last_index(s.take(i), name, min)
        }),
{
    assert(s.take(i + 1).drop_last() =~= s.take(i));
    assert(s.take(i + 1).last() == s[i]);
}

proof fn lemma_last_index_bounds(s: Seq<FunctionKey>, name: Seq<char>, min: u64)
    ensures
        last_index(s, name, min) matches Some(i) ==> 0 <= i < s.len() && qualifies(s[i], min)
            && s[i].name@ == name,
    decreases s.len(),
{
    if s.len() > 0 {
        lemma_last_index_bounds(s.drop_last(), name, min);
    }
}

/// The entry that stands for `name` in `s`, if any.
fn find_last(s: &Vec<FunctionKey>, name: &String, min: u64) -> (r: Option<usize>)
    ensures
        match last_index(s@, name@, min) {
            Some(i) => r == Some(i as usize),
            None => r is None,
        },
{
    let mut i: usize = s.len();
    assert(s@.take(s@.len() as int) =~= s@);
    while i > 0
        invariant
            i <= s@.len(),
            last_index(s@, name@, min) == last_index(s@.take(i as int), name@, min),
        decreases i,
    {
        proof {
            lemma_last_index_step(s@, name@, min, i - 1);
        }
        if s[i - 1].call_count >= min && s[i - 1].name == *name {
            return Some(i - 1);
        }
        i = i - 1;
    }
    assert(s@.take(0) =~= Seq::<FunctionKey>::empty());
    None
}

proof fn lemma_full_take(s: Seq<FunctionKey>)
    ensures
        s.take(s.len() as int) == s,
{
    assert(s.take(s.len() as int) =~= s);
}

/// Pairs the functions of a baseline and a current session by name. Only
/// functions called at least `min_call_count` times take part; of several
/// entries with one name, the last stands for it. Matched and removed
/// baseline functions come first, in baseline order, then the new ones in
/// current order.
pub fn pair_functions(
    baseline: &Vec<FunctionKey>,
    current: &Vec<FunctionKey>,
    min_call_count: u64,
) -> (r: Vec<Pairing>)
    ensures
        r@ == pairings(baseline@, current@, min_call_count),
{
    let mut out: Vec<Pairing> = Vec::new();
    let mut i: usize = 0;
    while i < baseline.len()
        invariant
            i <= baseline@.len(),
            out@ == baseline_part(baseline@, current@, min_call_count, i as int),
        decreases baseline@.len() - i,
    {
        proof {
            lemma_full_take(baseline@);
        }
        let kept = find_last(baseline, &baseline[i].name, min_call_count);
        if kept == Some(i) {
            match find_last(current, &baseline[i].name, min_call_count) {
                Some(j) => out.push(Pairing::Matched(i, j)),
                None => out.push(Pairing::Removed(i)),
            }
        }
        proof {
            lemma_last_index_bounds(baseline@, baseline@[i as int].name@, min_call_count);
        }
        i = i + 1;
    }
    let ghost first = out@;
    let mut j: usize = 0;
    while j < current.len()
        invariant
            j <= current@.len(),
            first == baseline_part(baseline@, current@, min_call_count, baseline@.len() as int),
            out@ == first + new_part(baseline@, current@, min_call_count, j as int),
        decreases current@.len() - j,
    {
        let kept = find_last(current, &current[j].name, min_call_count);
        if kept == Some(j) {
            let in_baseline = find_last(baseline, &current[j].name, min_call_count);
            if in_baseline.is_none() {
                out.push(Pairing::New(j));
            }
        }
        proof {
            lemma_last_index_bounds(current@, current@[j as int].name@, min_call_count);
        }
        j = j + 1;
        assert(out@ =~= first + new_part(baseline@, current@, min_call_count, j as int));
    }
    out
}

/// Pairs benchmarks by name, every benchmark taking part. A benchmark of
/// the baseline that the current session lacks is left out: only matched
/// and new benchmarks are reported.
pub fn pair_benchmarks(baseline: &Vec<FunctionKey>, current: &Vec<FunctionKey>) -> (r: Vec<
    Pairing,
>)
    ensures
        r@ == pairings(baseline@, current@, 0).filter(|p: Pairing| !(p is Removed)),
{
    let all = pair_functions(baseline, current, 0);
    let ghost pred = |p: Pairing| !(p is Removed);
    let mut out: Vec<Pairing> = Vec::new();
    let mut i: usize = 0;
    while i < all.len()
        invariant
            i <= all@.len(),
            pred == (|p: Pairing| !(p is Removed)),
            out@ == all@.take(i as int).filter(pred),
        decreases all@.len() - i,
    {
        let p = all[i];
        let keep = match p {
            Pairing::Removed(_) => false,
            _ => true,
        };
        if keep {
            out.push(p);
        }
        proof {
            reveal(Seq::filter);
            assert(all@.take(i + 1).drop_last() =~= all@.take(i as int));
        }
        i = i + 1;
    }
    assert(all@.take(all@.len() as int) =~= all@);
    out
}

/// Every pairing joins entries that take part and share their name: a
/// matched pair stands for one name in both sessions, a removed function
/// has no counterpart, and a new one none in the baseline.
pub proof fn lemma_pairings_sound(b: Seq<FunctionKey>, c: Seq<FunctionKey>, min: u64, k: int)
    requires
        b.len() <= usize::MAX,
        c.len() <= usize::MAX,
        0 <= k < pairings(b, c, min).len(),
    ensures
        match pairings(b, c, min)[k] {
            Pairing::Matched(i, j) => is_kept(b, i as int, min) && 0 <= j < c.len() && qualifies(
                c[j as int],
                min,
            ) && c[j as int].name@ == b[i as int].name@ && last_index(c, b[i as int].name@, min)
                == Some(j as int),
            Pairing::Removed(i) => is_kept(b, i as int, min) && last_index(
                c,
                b[i as int].name@,
                min,
            ) is None,
            Pairing::New(j) => is_kept(c, j as int, min) && last_index(b, c[j as int].name@, min)
                is None,
        },
{
    let bp = baseline_part(b, c, min, b.len() as int);
    if k < bp.len() {
        lemma_baseline_part_sound(b, c, min, b.len() as int, k);
    } else {
        lemma_new_part_sound(b, c, min, c.len() as int, k - bp.len());
    }
}

proof fn lemma_baseline_part_sound(b: Seq<FunctionKey>, c: Seq<FunctionKey>, min: u64, n: int, k: int)
    requires
        b.len() <= usize::MAX,
        c.len() <= usize::MAX,
        0 <= n <= b.len(),
        0 <= k < baseline_part(b, c, min, n).len(),
    ensures
        match baseline_part(b, c, min, n)[k] {
            Pairing::Matched(i, j) => is_kept(b, i as int, min) && 0 <= j < c.len() && qualifies(
                c[j as int],
                min,
            ) && c[j as int].name@ == b[i as int].name@ && last_index(c, b[i as int].name@, min)
                == Some(j as int),
            Pairing::Removed(i) => is_kept(b, i as int, min) && last_index(
                c,
                b[i as int].name@,
                min,
            ) is None,
            Pairing::New(j) => false,
        },
    decreases n,
{
    if n > 0 {
        let prev = baseline_part(b, c, min, n - 1);
        if k < prev.len() {
            lemma_baseline_part_sound(b, c, min, n - 1, k);
        } else {
            let i = n - 1;
            lemma_last_index_bounds(c, b[i].name@, min);
            assert((i as usize) as int == i);
            match last_index(c, b[i].name@, min) {
                Some(j) => {
                    assert((j as usize) as int == j);
                },
                None => {},
            }
        }
    }
}

proof fn lemma_new_part_sound(b: Seq<FunctionKey>, c: Seq<FunctionKey>, min: u64, n: int, k: int)
    requires
        c.len() <= usize::MAX,
        0 <= n <= c.len(),
        0 <= k < new_part(b, c, min, n).len(),
    ensures
        match new_part(b, c, min, n)[k] {
            Pairing::New(j) => is_kept(c, j as int, min) && last_index(b, c[j as int].name@, min)
                is None,
            _ => false,
        },
    decreases n,
{
    if n > 0 {
        let prev = new_part(b, c, min, n - 1);
        if k < prev.len() {
            lemma_new_part_sound(b, c, min, n - 1, k);
        } else {
            assert(((n - 1) as usize) as int == n - 1);
        }
    }
}

/// The position in its own session of the entry that pairing `p` reports:
/// the baseline entry of a matched or removed function, the current entry
/// of a new one.
pub open spec fn pos_of(p: Pairing) -> int {
    match p {
        Pairing::Matched(i, _) => i as int,
        Pairing::Removed(i) => i as int,
        Pairing::New(j) => j as int,
    }
}

/// The name of the function that pairing `p` reports.
pub open spec fn pairing_name(b: Seq<FunctionKey>, c: Seq<FunctionKey>, p: Pairing) -> Seq<char> {
    match p {
        Pairing::Matched(i, _) => b[i as int].name@,
        Pairing::Removed(i) => b[i as int].name@,
        Pairing::New(j) => c[j as int].name@,
    }
}

proof fn lemma_kept_of_last(s: Seq<FunctionKey>, name: Seq<char>, min: u64)
    ensures
        last_index(s, name, min) matches Some(i) ==> is_kept(s, i, min) && s[i].name@ == name,
{
    lemma_last_index_bounds(s, name, min);
}

proof fn lemma_kept_unique(s: Seq<FunctionKey>, i1: int, i2: int, min: u64)
    requires
        is_kept(s, i1, min),
        is_kept(s, i2, min),
        s[i1].name@ == s[i2].name@,
    ensures
        i1 == i2,
{
}

proof fn lemma_baseline_part_order(b: Seq<FunctionKey>, c: Seq<FunctionKey>, min: u64, n: int)
    requires
        b.len() <= usize::MAX,
        c.len() <= usize::MAX,
        0 <= n <= b.len(),
    ensures
        forall|k: int|
            0 <= k < baseline_part(b, c, min, n).len() ==> 0 <= #[trigger] pos_of(
                baseline_part(b, c, min, n)[k],
            ) < n && !(baseline_part(b, c, min, n)[k] is New),
        forall|k1: int, k2: int|
            0 <= k1 < k2 < baseline_part(b, c, min, n).len() ==> #[trigger] pos_of(
                baseline_part(b, c, min, n)[k1],
            ) < #[trigger] pos_of(baseline_part(b, c, min, n)[k2]),
    decreases n,
{
    if n > 0 {
        lemma_baseline_part_order(b, c, min, n - 1);
        let prev = baseline_part(b, c, min, n - 1);
        let cur = baseline_part(b, c, min, n);
        assert(((n - 1) as usize) as int == n - 1);
        if cur.len() > prev.len() {
            assert(cur =~= prev.push(cur.last()));
            assert(pos_of(cur.last()) == n - 1);
            assert forall|k: int| 0 <= k < cur.len() implies 0 <= #[trigger] pos_of(cur[k]) < n
                && !(cur[k] is New) by {
                if k < prev.len() {
                    assert(cur[k] == prev[k]);
                }
            }
            assert forall|k1: int, k2: int| 0 <= k1 < k2 < cur.len() implies #[trigger] pos_of(
                cur[k1],
            ) < #[trigger] pos_of(cur[k2]) by {
                assert(cur[k1] == prev[k1]);
                if k2 < prev.len() {
                    assert(cur[k2] == prev[k2]);
                }
            }
        }
    }
}

proof fn lemma_new_part_order(b: Seq<FunctionKey>, c: Seq<FunctionKey>, min: u64, n: int)
    requires
        c.len() <= usize::MAX,
        0 <= n <= c.len(),
    ensures
        forall|k: int|
            0 <= k < new_part(b, c, min, n).len() ==> 0 <= #[trigger] pos_of(
                new_part(b, c, min, n)[k],
            ) < n && new_part(b, c, min, n)[k] is New,
        forall|k1: int, k2: int|
            0 <= k1 < k2 < new_part(b, c, min, n).len() ==> #[trigger] pos_of(
                new_part(b, c, min, n)[k1],
            ) < #[trigger] pos_of(new_part(b, c, min, n)[k2]),
    decreases n,
{
    if n > 0 {
        lemma_new_part_order(b, c, min, n - 1);
        let prev = new_part(b, c, min, n - 1);
        let cur = new_part(b, c, min, n);
        assert(((n - 1) as usize) as int == n - 1);
        if cur.len() > prev.len() {
            assert(cur =~= prev.push(cur.last()));
            assert forall|k: int| 0 <= k < cur.len() implies 0 <= #[trigger] pos_of(cur[k]) < n
                && cur[k] is New by {
                if k < prev.len() {
                    assert(cur[k] == prev[k]);
                }
            }
            assert forall|k1: int, k2: int| 0 <= k1 < k2 < cur.len() implies #[trigger] pos_of(
                cur[k1],
            ) < #[trigger] pos_of(cur[k2]) by {
                assert(cur[k1] == prev[k1]);
                if k2 < prev.len() {
                    assert(cur[k2] == prev[k2]);
                }
            }
        }
    }
}

proof fn lemma_baseline_part_complete(
    b: Seq<FunctionKey>,
    c: Seq<FunctionKey>,
    min: u64,
    n: int,
    i: int,
)
    requires
        b.len() <= usize::MAX,
        c.len() <= usize::MAX,
        0 <= i < n <= b.len(),
        is_kept(b, i, min),
    ensures
        exists|k: int|
            0 <= k < baseline_part(b, c, min, n).len() && pos_of(
                #[trigger] baseline_part(b, c, min, n)[k],
            ) == i,
    decreases n,
{
    let prev = baseline_part(b, c, min, n - 1);
    let cur = baseline_part(b, c, min, n);
    if i == n - 1 {
        assert(((n - 1) as usize) as int == n - 1);
        assert(pos_of(cur[cur.len() - 1]) == i);
    } else {
        lemma_baseline_part_complete(b, c, min, n - 1, i);
        let k = choose|k: int| 0 <= k < prev.len() && pos_of(#[trigger] prev[k]) == i;
        assert(cur[k] == prev[k]);
    }
}

proof fn lemma_new_part_complete(b: Seq<FunctionKey>, c: Seq<FunctionKey>, min: u64, n: int, j: int)
    requires
        c.len() <= usize::MAX,
        0 <= j < n <= c.len(),
        is_kept(c, j, min),
        last_index(b, c[j].name@, min) is None,
    ensures
        exists|k: int|
            0 <= k < new_part(b, c, min, n).len() && pos_of(#[trigger] new_part(b, c, min, n)[k])
                == j,
    decreases n,
{
    let prev = new_part(b, c, min, n - 1);
    let cur = new_part(b, c, min, n);
    if j == n - 1 {
        assert(((n - 1) as usize) as int == n - 1);
        assert(pos_of(cur[cur.len() - 1]) == j);
    } else {
        lemma_new_part_complete(b, c, min, n - 1, j);
        let k = choose|k: int| 0 <= k < prev.len() && pos_of(#[trigger] prev[k]) == j;
        assert(cur[k] == prev[k]);
    }
}

/// A comparison reports every function that takes part exactly once: no
/// name is reported twice; a function taking part in the baseline is
/// reported as matched (when the current session has it) or removed; one
/// taking part in the current session is reported as matched (when the
/// baseline has it) or new.
pub proof fn lemma_pairings_complete(b: Seq<FunctionKey>, c: Seq<FunctionKey>, min: u64)
    requires
        b.len() <= usize::MAX,
        c.len() <= usize::MAX,
    ensures
        forall|k1: int, k2: int|
            0 <= k1 < k2 < pairings(b, c, min).len() ==> pairing_name(
                b,
                c,
                #[trigger] pairings(b, c, min)[k1],
            ) != pairing_name(b, c, #[trigger] pairings(b, c, min)[k2]),
        forall|i: int|
            #![trigger is_kept(b, i, min)]
            is_kept(b, i, min) ==> exists|k: int|
                0 <= k < pairings(b, c, min).len() && #[trigger] pairings(b, c, min)[k] == (
                match last_index(c, b[i].name@, min) {
                    Some(j) => Pairing::Matched(i as usize, j as usize),
                    None => Pairing::Removed(i as usize),
                }),
        forall|j: int|
            #![trigger is_kept(c, j, min)]
            is_kept(c, j, min) ==> exists|k: int|
                0 <= k < pairings(b, c, min).len() && #[trigger] pairings(b, c, min)[k] == (
                match last_index(b, c[j].name@, min) {
                    Some(i) => Pairing::Matched(i as usize, j as usize),
                    None => Pairing::New(j as usize),
                }),
{
    let bp = baseline_part(b, c, min, b.len() as int);
    let np = new_part(b, c, min, c.len() as int);
    let ps = pairings(b, c, min);
    lemma_baseline_part_order(b, c, min, b.len() as int);
    lemma_new_part_order(b, c, min, c.len() as int);
    assert(ps =~= bp + np);
    // the entry of each pairing takes part and stands for its name
    assert forall|k: int| 0 <= k < ps.len() implies #[trigger] pairing_name(b, c, ps[k])
        == (if k < bp.len() {
        b[pos_of(ps[k])].name@
    } else {
        c[pos_of(ps[k])].name@
    }) && (k < bp.len() ==> is_kept(b, pos_of(ps[k]), min)) && (k >= bp.len() ==> is_kept(
        c,
        pos_of(ps[k]),
        min,
    ) && last_index(b, c[pos_of(ps[k])].name@, min) is None) by {
        lemma_pairings_sound(b, c, min, k);
        if k < bp.len() {
            assert(ps[k] == bp[k]);
        } else {
            assert(ps[k] == np[k - bp.len()]);
        }
    }
    assert forall|k1: int, k2: int| 0 <= k1 < k2 < ps.len() implies pairing_name(
        b,
        c,
        #[trigger] ps[k1],
    ) != pairing_name(b, c, #[trigger] ps[k2]) by {
        assert(pairing_name(b, c, ps[k1]) == pairing_name(b, c, ps[k1]));
        assert(pairing_name(b, c, ps[k2]) == pairing_name(b, c, ps[k2]));
        if k2 < bp.len() {
            assert(ps[k1] == bp[k1] && ps[k2] == bp[k2]);
            assert(pos_of(bp[k1]) < pos_of(bp[k2]));
            if pairing_name(b, c, ps[k1]) == pairing_name(b, c, ps[k2]) {
                lemma_kept_unique(b, pos_of(ps[k1]), pos_of(ps[k2]), min);
            }
        } else if k1 >= bp.len() {
            assert(ps[k1] == np[k1 - bp.len()] && ps[k2] == np[k2 - bp.len()]);
            assert(pos_of(np[k1 - bp.len()]) < pos_of(np[k2 - bp.len()]));
            if pairing_name(b, c, ps[k1]) == pairing_name(b, c, ps[k2]) {
                lemma_kept_unique(c, pos_of(ps[k1]), pos_of(ps[k2]), min);
            }
        } else {
            // a baseline entry that stands for its name is found by name
            let i = pos_of(ps[k1]);
            assert(last_index(b, b[i].name@, min) == Some(i));
        }
    }
    assert forall|i: int| #![trigger is_kept(b, i, min)] is_kept(b, i, min) implies exists|k: int|
        0 <= k < ps.len() && #[trigger] ps[k] == (match last_index(c, b[i].name@, min) {
            Some(j) => Pairing::Matched(i as usize, j as usize),
            None => Pairing::Removed(i as usize),
        }) by {
        lemma_baseline_part_complete(b, c, min, b.len() as int, i);
        let k = choose|k: int| 0 <= k < bp.len() && pos_of(#[trigger] bp[k]) == i;
        assert(ps[k] == bp[k]);
        lemma_pairings_sound(b, c, min, k);
        lemma_last_index_bounds(c, b[i].name@, min);
    }
    assert forall|j: int| #![trigger is_kept(c, j, min)] is_kept(c, j, min) implies exists|k: int|
        0 <= k < ps.len() && #[trigger] ps[k] == (match last_index(b, c[j].name@, min) {
            Some(i) => Pairing::Matched(i as usize, j as usize),
            None => Pairing::New(j as usize),
        }) by {
        lemma_last_index_bounds(b, c[j].name@, min);
        match last_index(b, c[j].name@, min) {
            Some(i) => {
                lemma_kept_of_last(b, c[j].name@, min);
                lemma_baseline_part_complete(b, c, min, b.len() as int, i);
                let k = choose|k: int| 0 <= k < bp.len() && pos_of(#[trigger] bp[k]) == i;
                assert(ps[k] == bp[k]);
                lemma_pairings_sound(b, c, min, k);
                assert(b[i].name@ == c[j].name@);
            },
            None => {
                lemma_new_part_complete(b, c, min, c.len() as int, j);
                let k = choose|k: int| 0 <= k < np.len() && pos_of(#[trigger] np[k]) == j;
                assert(ps[bp.len() + k] == np[k]);
                lemma_pairings_sound(b, c, min, bp.len() + k);
            },
        }
    }
}

// ─── tallying outcomes ──────────────────────────────────────────────────────

/// The outcome of one function: its status, the severity of a regression,
/// whether its allocations grew beyond the regression threshold, and the
/// absolute change of its mean time.
#[derive(Clone, Copy, PartialEq, Eq, Structural, Debug)]
pub struct Outcome {
    pub status: DiffStatus,
    pub severity: Option<RegressionSeverity>,
    pub memory_regressed: bool,
    /// How far the mean time moved between the sessions, in whole
    /// nanoseconds either way; zero for a function in one session only.
    pub change_ns: u64,
}

/// How many outcomes satisfy `f`.
pub open spec fn count_where(s: Seq<Outcome>, f: spec_fn(Outcome) -> bool) -> nat
    decreases s.len(),
{
    if s.len() == 0 {
        0
    } else {
        count_where(s.drop_last(), f) + if f(s.last()) {
            1nat
        } else {
            0nat
        }
    }
}

pub open spec fn is_critical(o: Outcome) -> bool {
    o.status == DiffStatus::Regression && o.severity == Some(RegressionSeverity::Critical)
}

pub open spec fn is_moderate(o: Outcome) -> bool {
    o.status == DiffStatus::Regression && o.severity == Some(RegressionSeverity::Moderate)
}

/// A regression that is neither critical nor moderate counts as minor.
pub open spec fn is_minor(o: Outcome) -> bool {
    o.status == DiffStatus::Regression && !is_critical(o) && !is_moderate(o)
}

pub open spec fn has_status(o: Outcome, s: DiffStatus) -> bool {
    o.status == s
}

pub open spec fn mem_regressed(o: Outcome) -> bool {
    o.memory_regressed
}

/// The summary of `outcomes`: each count is the number of outcomes of its
/// kind.
pub open spec fn summary_of(outcomes: Seq<Outcome>) -> DiffSummary {
    DiffSummary {
        regressions_critical: count_where(outcomes, |o: Outcome| is_critical(o)) as u32,
        regressions_moderate: count_where(outcomes, |o: Outcome| is_moderate(o)) as u32,
        regressions_minor: count_where(outcomes, |o: Outcome| is_minor(o)) as u32,
        improvements: count_where(outcomes, |o: Outcome| has_status(o, DiffStatus::Improvement))
            as u32,
        unchanged: count_where(outcomes, |o: Outcome| has_status(o, DiffStatus::Unchanged)) as u32,
        new_functions: count_where(outcomes, |o: Outcome| has_status(o, DiffStatus::New)) as u32,
        removed_functions: count_where(outcomes, |o: Outcome| has_status(o, DiffStatus::Removed))
            as u32,
        memory_regressions: count_where(outcomes, |o: Outcome| mem_regressed(o)) as u32,
    }
}

proof fn lemma_count_bounded(s: Seq<Outcome>, f: spec_fn(Outcome) -> bool)
    ensures
        count_where(s, f) <= s.len(),
    decreases s.len(),
{
    if s.len() > 0 {
        lemma_count_bounded(s.drop_last(), f);
    }
}

proof fn lemma_count_step(s: Seq<Outcome>, f: spec_fn(Outcome) -> bool, i: int)
    requires
        0 <= i < s.len(),
    ensures
        count_where(s.take(i + 1), f) == count_where(s.take(i), f) + if f(s[i]) {
            1nat
        } else {
            0nat
        },
{
    assert(s.take(i + 1).drop_last() =~= s.take(i));
}

/// How many pairings satisfy `f`.
pub open spec fn count_pairings(s: Seq<Pairing>, f: spec_fn(Pairing) -> bool) -> nat
    decreases s.len(),
{
    if s.len() == 0 {
        0
    } else {
        count_pairings(s.drop_last(), f) + if f(s.last()) {
            1nat
        } else {
            0nat
        }
    }
}

/// Outcome `o` reports pairing `p`: a removed function as removed, a new
/// one as new, a matched one as a regression, an improvement or unchanged;
/// and it has a severity exactly when it is a regression.
pub open spec fn reports_pairing(o: Outcome, p: Pairing) -> bool {
    &&& match p {
        Pairing::Removed(_) => o.status == DiffStatus::Removed,
        Pairing::New(_) => o.status == DiffStatus::New,
        Pairing::Matched(_, _) => o.status == DiffStatus::Regression || o.status
            == DiffStatus::Improvement || o.status == DiffStatus::Unchanged,
    }
    &&& (o.severity is Some <==> o.status == DiffStatus::Regression)
}

/// The summary of a comparison follows its pairings: as many removed and
/// new functions as removed and new pairings, and as many critical,
/// moderate and minor regressions, improvements and unchanged functions
/// together as matched pairings.
pub proof fn lemma_summary_follows_pairings(ps: Seq<Pairing>, os: Seq<Outcome>)
    requires
        os.len() == ps.len(),
        forall|k: int| 0 <= k < ps.len() ==> reports_pairing(#[trigger] os[k], ps[k]),
    ensures
        count_where(os, |o: Outcome| has_status(o, DiffStatus::Removed)) == count_pairings(
            ps,
            |p: Pairing| p is Removed,
        ),
        count_where(os, |o: Outcome| has_status(o, DiffStatus::New)) == count_pairings(
            ps,
            |p: Pairing| p is New,
        ),
        count_where(os, |o: Outcome| is_critical(o)) + count_where(os, |o: Outcome| is_moderate(o))
            + count_where(os, |o: Outcome| is_minor(o)) + count_where(
            os,
            |o: Outcome| has_status(o, DiffStatus::Improvement),
        ) + count_where(os, |o: Outcome| has_status(o, DiffStatus::Unchanged)) == count_pairings(
            ps,
            |p: Pairing| p is Matched,
        ),
    decreases ps.len(),
{
    if ps.len() > 0 {
        let n = ps.len() - 1;
        assert forall|k: int| 0 <= k < ps.drop_last().len() implies reports_pairing(
            #[trigger] os.drop_last()[k],
            ps.drop_last()[k],
        ) by {
            assert(os.drop_last()[k] == os[k] && ps.drop_last()[k] == ps[k]);
        }
        lemma_summary_follows_pairings(ps.drop_last(), os.drop_last());
        assert(reports_pairing(os[n], ps[n]));
        assert(os.last() == os[n] && ps.last() == ps[n]);
    }
}

/// How many of the first `n` baseline entries stand for their name and
/// have (`present`) or lack a counterpart in the current session.
pub open spec fn baseline_count(
    b: Seq<FunctionKey>,
    c: Seq<FunctionKey>,
    min: u64,
    n: int,
    present: bool,
) -> nat
    decreases n,
{
    if n <= 0 {
        0
    } else {
        baseline_count(b, c, min, n - 1, present) + if is_kept(b, n - 1, min) && (last_index(
            c,
            b[n - 1].name@,
            min,
        ) is Some) == present {
            1nat
        } else {
            0nat
        }
    }
}

/// How many of the first `n` current entries stand for their name and
/// have no counterpart in the baseline.
pub open spec fn new_count(b: Seq<FunctionKey>, c: Seq<FunctionKey>, min: u64, n: int) -> nat
    decreases n,
{
    if n <= 0 {
        0
    } else {
        new_count(b, c, min, n - 1) + if is_kept(c, n - 1, min) && last_index(
            b,
            c[n - 1].name@,
            min,
        ) is None {
            1nat
        } else {
            0nat
        }
    }
}

proof fn lemma_count_pairings_add(a: Seq<Pairing>, x: Seq<Pairing>, f: spec_fn(Pairing) -> bool)
    ensures
        count_pairings(a + x, f) == count_pairings(a, f) + count_pairings(x, f),
    decreases x.len(),
{
    if x.len() > 0 {
        assert((a + x).drop_last() =~= a + x.drop_last());
        assert((a + x).last() == x.last());
        lemma_count_pairings_add(a, x.drop_last(), f);
    }
}

proof fn lemma_baseline_part_counts(b: Seq<FunctionKey>, c: Seq<FunctionKey>, min: u64, n: int)
    requires
        0 <= n <= b.len(),
    ensures
        count_pairings(baseline_part(b, c, min, n), |p: Pairing| p is Removed) == baseline_count(
            b,
            c,
            min,
            n,
            false,
        ),
        count_pairings(baseline_part(b, c, min, n), |p: Pairing| p is Matched) == baseline_count(
            b,
            c,
            min,
            n,
            true,
        ),
        count_pairings(baseline_part(b, c, min, n), |p: Pairing| p is New) == 0,
    decreases n,
{
    if n > 0 {
        lemma_baseline_part_counts(b, c, min, n - 1);
        let prev = baseline_part(b, c, min, n - 1);
        let cur = baseline_part(b, c, min, n);
        if cur.len() > prev.len() {
            assert(cur.drop_last() =~= prev);
        } else {
            assert(cur == prev);
        }
    }
}

proof fn lemma_new_part_counts(b: Seq<FunctionKey>, c: Seq<FunctionKey>, min: u64, n: int)
    requires
        0 <= n <= c.len(),
    ensures
        count_pairings(new_part(b, c, min, n), |p: Pairing| p is New) == new_count(b, c, min, n),
        count_pairings(new_part(b, c, min, n), |p: Pairing| p is Removed) == 0,
        count_pairings(new_part(b, c, min, n), |p: Pairing| p is Matched) == 0,
    decreases n,
{
    if n > 0 {
        lemma_new_part_counts(b, c, min, n - 1);
        let prev = new_part(b, c, min, n - 1);
        let cur = new_part(b, c, min, n);
        if cur.len() > prev.len() {
            assert(cur.drop_last() =~= prev);
        } else {
            assert(cur == prev);
        }
    }
}

/// A whole comparison, for outcomes that report its pairings one by one:
/// every function taking part in either session is reported exactly once
/// (no name twice; a baseline function as matched or removed, a current
/// one as matched or new); a removed one lacks a counterpart and a new one
/// too; each outcome has a severity exactly when it is a regression; and
/// the summary counts as many removed functions as baseline functions
/// without a counterpart, as many new ones as current functions without
/// one, and as many critical, moderate and minor regressions,
/// improvements and unchanged functions together as functions in both.
pub proof fn lemma_comparison(b: Seq<FunctionKey>, c: Seq<FunctionKey>, min: u64, os: Seq<Outcome>)
    requires
        b.len() <= usize::MAX,
        c.len() <= usize::MAX,
        os.len() == pairings(b, c, min).len(),
        forall|k: int|
            0 <= k < os.len() ==> reports_pairing(#[trigger] os[k], pairings(b, c, min)[k]),
    ensures
        forall|k1: int, k2: int|
            0 <= k1 < k2 < pairings(b, c, min).len() ==> pairing_name(
                b,
                c,
                #[trigger] pairings(b, c, min)[k1],
            ) != pairing_name(b, c, #[trigger] pairings(b, c, min)[k2]),
        forall|i: int|
            #![trigger is_kept(b, i, min)]
            is_kept(b, i, min) ==> exists|k: int|
                0 <= k < pairings(b, c, min).len() && #[trigger] pairings(b, c, min)[k] == (
                match last_index(c, b[i].name@, min) {
                    Some(j) => Pairing::Matched(i as usize, j as usize),
                    None => Pairing::Removed(i as usize),
                }),
        forall|j: int|
            #![trigger is_kept(c, j, min)]
            is_kept(c, j, min) ==> exists|k: int|
                0 <= k < pairings(b, c, min).len() && #[trigger] pairings(b, c, min)[k] == (
                match last_index(b, c[j].name@, min) {
                    Some(i) => Pairing::Matched(i as usize, j as usize),
                    None => Pairing::New(j as usize),
                }),
        forall|k: int|
            0 <= k < os.len() ==> match #[trigger] pairings(b, c, min)[k] {
                Pairing::Removed(i) => os[k].status == DiffStatus::Removed && last_index(
                    c,
                    b[i as int].name@,
                    min,
                ) is None,
                Pairing::New(j) => os[k].status == DiffStatus::New && last_index(
                    b,
                    c[j as int].name@,
                    min,
                ) is None,
                Pairing::Matched(i, j) => os[k].status != DiffStatus::Removed && os[k].status
                    != DiffStatus::New && c[j as int].name@ == b[i as int].name@,
            },
        forall|k: int|
            0 <= k < os.len() ==> ((#[trigger] os[k]).severity is Some <==> os[k].status
                == DiffStatus::Regression),
        count_where(os, |o: Outcome| has_status(o, DiffStatus::Removed)) == baseline_count(
            b,
            c,
            min,
            b.len() as int,
            false,
        ),
        count_where(os, |o: Outcome| has_status(o, DiffStatus::New)) == new_count(
            b,
            c,
            min,
            c.len() as int,
        ),
        count_where(os, |o: Outcome| is_critical(o)) + count_where(os, |o: Outcome| is_moderate(o))
            + count_where(os, |o: Outcome| is_minor(o)) + count_where(
            os,
            |o: Outcome| has_status(o, DiffStatus::Improvement),
        ) + count_where(os, |o: Outcome| has_status(o, DiffStatus::Unchanged)) == baseline_count(
            b,
            c,
            min,
            b.len() as int,
            true,
        ),
{
    let ps = pairings(b, c, min);
    let bp = baseline_part(b, c, min, b.len() as int);
    let np = new_part(b, c, min, c.len() as int);
    lemma_pairings_complete(b, c, min);
    assert forall|k: int| 0 <= k < os.len() implies match #[trigger] ps[k] {
        Pairing::Removed(i) => os[k].status == DiffStatus::Removed && last_index(
            c,
            b[i as int].name@,
            min,
        ) is None,
        Pairing::New(j) => os[k].status == DiffStatus::New && last_index(
            b,
            c[j as int].name@,
            min,
        ) is None,
        Pairing::Matched(i, j) => os[k].status != DiffStatus::Removed && os[k].status
            != DiffStatus::New && c[j as int].name@ == b[i as int].name@,
    } by {
        lemma_pairings_sound(b, c, min, k);
        assert(reports_pairing(os[k], ps[k]));
    }
    assert forall|k: int| 0 <= k < os.len() implies ((#[trigger] os[k]).severity is Some
        <==> os[k].status == DiffStatus::Regression) by {
        assert(reports_pairing(os[k], ps[k]));
    }
    lemma_summary_follows_pairings(ps, os);
    lemma_baseline_part_counts(b, c, min, b.len() as int);
    lemma_new_part_counts(b, c, min, c.len() as int);
    lemma_count_pairings_add(bp, np, |p: Pairing| p is Removed);
    lemma_count_pairings_add(bp, np, |p: Pairing| p is New);
    lemma_count_pairings_add(bp, np, |p: Pairing| p is Matched);
}

/// Counts the outcomes of each kind.
pub fn tally(outcomes: &Vec<Outcome>) -> (s: DiffSummary)
    requires
        outcomes@.len() <= u32::MAX,
    ensures
        s == summary_of(outcomes@),
{
    let ghost os = outcomes@;
    let mut s = DiffSummary::default();
    let mut i: usize = 0;
    while i < outcomes.len()
        invariant
            os == outcomes@,
            i <= os.len(),
            os.len() <= u32::MAX,
            s == summary_of(os.take(i as int)),
        decreases os.len() - i,
    {
        let o = outcomes[i];
        proof {
            lemma_count_step(os, |o: Outcome| is_critical(o), i as int);
            lemma_count_step(os, |o: Outcome| is_moderate(o), i as int);
            lemma_count_step(os, |o: Outcome| is_minor(o), i as int);
            lemma_count_step(os, |o: Outcome| has_status(o, DiffStatus::Improvement), i as int);
            lemma_count_step(os, |o: Outcome| has_status(o, DiffStatus::Unchanged), i as int);
            lemma_count_step(os, |o: Outcome| has_status(o, DiffStatus::New), i as int);
            lemma_count_step(os, |o: Outcome| has_status(o, DiffStatus::Removed), i as int);
            lemma_count_step(os, |o: Outcome| mem_regressed(o), i as int);
            let t = os.take(i + 1);
            assert(t.len() == i + 1);
            lemma_count_bounded(t, |o: Outcome| is_critical(o));
            lemma_count_bounded(t, |o: Outcome| is_moderate(o));
            lemma_count_bounded(t, |o: Outcome| is_minor(o));
            lemma_count_bounded(t, |o: Outcome| has_status(o, DiffStatus::Improvement));
            lemma_count_bounded(t, |o: Outcome| has_status(o, DiffStatus::Unchanged));
            lemma_count_bounded(t, |o: Outcome| has_status(o, DiffStatus::New));
            lemma_count_bounded(t, |o: Outcome| has_status(o, DiffStatus::Removed));
            lemma_count_bounded(t, |o: Outcome| mem_regressed(o));
        }
        match o.status {
            DiffStatus::Regression => match o.severity {
                Some(RegressionSeverity::Critical) => {
                    s.regressions_critical = s.regressions_critical + 1;
                },
                Some(RegressionSeverity::Moderate) => {
                    s.regressions_moderate = s.regressions_moderate + 1;
                },
                _ => {
                    s.regressions_minor = s.regressions_minor + 1;
                },
            },
            DiffStatus::Improvement => {
                s.improvements = s.improvements + 1;
            },
            DiffStatus::Unchanged => {
                s.unchanged = s.unchanged + 1;
            },
            DiffStatus::New => {
                s.new_functions = s.new_functions + 1;
            },
            DiffStatus::Removed => {
                s.removed_functions = s.removed_functions + 1;
            },
        }
        if o.memory_regressed {
            s.memory_regressions = s.memory_regressions + 1;
        }
        i = i + 1;
    }
    assert(os.take(os.len() as int) =~= os);
    s
}

// ─── report order ───────────────────────────────────────────────────────────

/// The absolute changes of `s`, in order.
pub open spec fn changes_of(s: Seq<Outcome>) -> Seq<u64> {
    s.map_values(|o: Outcome| o.change_ns)
}

/// The order in which outcomes are reported: every outcome once, by
/// absolute change, largest first, and in their given order among equal
/// changes.
pub fn order_by_change(outcomes: &Vec<Outcome>) -> (order: Vec<usize>)
    ensures
        is_desc_order(changes_of(outcomes@), order@),
{
    let mut keys: Vec<u64> = Vec::new();
    let mut i: usize = 0;
    while i < outcomes.len()
        invariant
            i <= outcomes@.len(),
            keys@ == changes_of(outcomes@.take(i as int)),
        decreases outcomes@.len() - i,
    {
        keys.push(outcomes[i].change_ns);
        i = i + 1;
        assert(keys@ =~= changes_of(outcomes@.take(i as int)));
    }
    assert(outcomes@.take(i as int) =~= outcomes@);
    order_desc(&keys)
}

} // verus!
