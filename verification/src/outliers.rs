//! Latency budgets and the switch for outlier detection.
//!
//! A budget caps the duration of one call of a named function. Every call
//! that runs longer than its function's budget is recorded as a violation.
//! The statistical outlier test itself works on floating-point running
//! statistics and is kept by the caller; this module holds the budgets, the
//! violations and whether outlier detection is on.

use vstd::prelude::*;
use vstd::string::StringExecFns;

verus! {

/// One call that ran longer than its function's budget.
pub struct BudgetViolation {
    pub function: String,
    pub call_index: u64,
    pub duration_ns: u64,
    pub budget_ns: u64,
    /// How far over budget the call ran (ns).
    pub exceeded_by_ns: u64,
    pub thread: u64,
    pub timestamp_ns: u64,
}

/// Budgets, violations and the outlier-detection switch.
pub struct OutlierState {
    /// Whether calls are tested for being statistical outliers.
    pub enabled: bool,
    /// Budget per function name, each name at most once.
    pub budgets: Vec<(String, u64)>,
    /// Violations, oldest first.
    pub violations: Vec<BudgetViolation>,
}

/// The budgets as (name, nanoseconds) pairs.
pub open spec fn budget_pairs(b: Seq<(String, u64)>) -> Seq<(Seq<char>, u64)> {
    b.map_values(|p: (String, u64)| (p.0@, p.1))
}

/// The function names that have a budget, in order.
pub open spec fn budget_names(pairs: Seq<(Seq<char>, u64)>) -> Seq<Seq<char>> {
    pairs.map_values(|p: (Seq<char>, u64)| p.0)
}

/// The budget of function `name`, if it has one.
pub open spec fn budget_of(pairs: Seq<(Seq<char>, u64)>, name: Seq<char>) -> Option<u64> {
    if budget_names(pairs).contains(name) {
        Some(pairs[budget_names(pairs).index_of(name)].1)
    } else {
        None
    }
}

/// The budgets after giving `name` the budget `ns`: an existing budget is
/// replaced in place, a new one added at the end.
pub open spec fn with_budget(pairs: Seq<(Seq<char>, u64)>, name: Seq<char>, ns: u64) -> Seq<
    (Seq<char>, u64),
> {
    if budget_names(pairs).contains(name) {
        pairs.update(budget_names(pairs).index_of(name), (name, ns))
    } else {
        pairs.push((name, ns))
    }
}

impl OutlierState {
    /// No function has a budget twice.
    pub open spec fn wf(&self) -> bool {
        budget_names(budget_pairs(self.budgets@)).no_duplicates()
    }

    /// The budgets, as pairs of names and nanoseconds.
    pub open spec fn budget_view(&self) -> Seq<(Seq<char>, u64)> {
        budget_pairs(self.budgets@)
    }

    /// Outlier detection on, no budget and no violation.
    pub fn new() -> (s: Self)
        ensures
            s.wf(),
            s.enabled,
            s.budgets@.len() == 0,
            s.violations@.len() == 0,
    {
        let s = OutlierState { enabled: true, budgets: Vec::new(), violations: Vec::new() };
        assert(budget_names(budget_pairs(s.budgets@)) =~= Seq::<Seq<char>>::empty());
        s
    }
}

/// Turns outlier detection off.
pub fn disable_outlier_detection(state: &mut OutlierState)
    ensures
        !final(state).enabled,
        final(state).budgets == old(state).budgets,
        final(state).violations == old(state).violations,
{
    state.enabled = false;
}

/// Turns outlier detection on.
pub fn enable_outlier_detection(state: &mut OutlierState)
    ensures
        final(state).enabled,
        final(state).budgets == old(state).budgets,
        final(state).violations == old(state).violations,
{
    state.enabled = true;
}

/// Position of `name` among the budgeted functions, if it is there.
fn find_budget(budgets: &Vec<(String, u64)>, name: &String) -> (r: Option<usize>)
    requires
        budget_names(budget_pairs(budgets@)).no_duplicates(),
    ensures
        r is None ==> !budget_names(budget_pairs(budgets@)).contains(name@),
        r matches Some(i) ==> i < budgets@.len() && budget_names(budget_pairs(budgets@)).contains(
            name@,
        ) && budget_names(budget_pairs(budgets@)).index_of(name@) == i as int,
{
    let ghost names = budget_names(budget_pairs(budgets@));
    let n = budgets.len();
    let mut i: usize = 0;
    while i < n
        invariant
            n == budgets@.len(),
            i <= n,
            names == budget_names(budget_pairs(budgets@)),
            names.no_duplicates(),
            forall|k: int| 0 <= k < i ==> names[k] != name@,
        decreases n - i,
    {
        assert(names[i as int] == budgets@[i as int].0@);
        if budgets[i].0 == *name {
            assert(names.contains(name@));
            assert(names.index_of(name@) == i as int) by {
                let c = names.index_of(name@);
                assert(names[c] == name@);
            }
            return Some(i);
        }
        i = i + 1;
    }
    None
}

/// Gives function `fn_name` a latency budget of `budget_ns`, replacing any
/// budget it had.
pub fn set_budget(state: &mut OutlierState, fn_name: &str, budget_ns: u64)
    requires
        old(state).wf(),
    ensures
        final(state).wf(),
        final(state).budget_view() == with_budget(old(state).budget_view(), fn_name@, budget_ns),
        final(state).enabled == old(state).enabled,
        final(state).violations == old(state).violations,
{
    let ghost pairs = budget_pairs(state.budgets@);
    let ghost names = budget_names(pairs);
    let name = String::from_str(fn_name);
    match find_budget(&state.budgets, &name) {
        Some(i) => {
            state.budgets.set(i, (name, budget_ns));
            assert(budget_pairs(state.budgets@) =~= with_budget(pairs, fn_name@, budget_ns));
            assert(budget_names(budget_pairs(state.budgets@)) =~= names);
        },
        None => {
            state.budgets.push((name, budget_ns));
            assert(budget_pairs(state.budgets@) =~= with_budget(pairs, fn_name@, budget_ns));
            assert(budget_names(budget_pairs(state.budgets@)) =~= names.push(fn_name@));
        },
    }
}

/// Removes the budget of `fn_name`, if it has one.
pub fn remove_budget(state: &mut OutlierState, fn_name: &str)
    requires
        old(state).wf(),
    ensures
        final(state).wf(),
        final(state).budget_view() == old(state).budget_view().filter(
            |p: (Seq<char>, u64)| p.0 != fn_name@,
        ),
        final(state).enabled == old(state).enabled,
        final(state).violations == old(state).violations,
{
    let ghost pairs = budget_pairs(state.budgets@);
    let ghost pred = |p: (Seq<char>, u64)| p.0 != fn_name@;
    let name = String::from_str(fn_name);
    let mut kept: Vec<(String, u64)> = Vec::new();
    let n = state.budgets.len();
    let mut i: usize = 0;
    while i < n
        invariant
            n == state.budgets@.len(),
            i <= n,
            pairs == budget_pairs(state.budgets@),
            pred == (|p: (Seq<char>, u64)| p.0 != fn_name@),
            name@ == fn_name@,
            budget_pairs(kept@) == pairs.take(i as int).filter(pred),
        decreases n - i,
    {
        let ghost kept_before = kept@;
        let other = !(state.budgets[i].0 == name);
        if other {
            kept.push((state.budgets[i].0.clone(), state.budgets[i].1));
        }
        proof {
            reveal(Seq::filter);
            let t1 = pairs.take(i + 1);
            assert(t1.drop_last() =~= pairs.take(i as int));
            assert(t1.last() == pairs[i as int]);
            assert(pairs[i as int] == (state.budgets@[i as int].0@, state.budgets@[i as int].1));
            assert(pred(pairs[i as int]) == other);
            if other {
                assert(budget_pairs(kept@) =~= budget_pairs(kept_before).push(pairs[i as int]));
            } else {
                assert(budget_pairs(kept@) =~= budget_pairs(kept_before));
            }
        }
        i = i + 1;
    }
    assert(pairs.take(n as int) =~= pairs);
    proof {
        lemma_removal_keeps_names_unique(pairs, fn_name@, pred);
    }
    state.budgets = kept;
}

proof fn lemma_removal_keeps_names_unique(
    pairs: Seq<(Seq<char>, u64)>,
    name: Seq<char>,
    pred: spec_fn((Seq<char>, u64)) -> bool,
)
    requires
        budget_names(pairs).no_duplicates(),
        forall|p: (Seq<char>, u64)| #[trigger] pred(p) == (p.0 != name),
    ensures
        budget_names(pairs.filter(pred)).no_duplicates(),
        forall|p: (Seq<char>, u64)| pairs.filter(pred).contains(p) ==> pairs.contains(p) && p.0 != name,
    decreases pairs.len(),
{
    broadcast use vstd::seq_lib::group_filter_ensures;

    reveal(Seq::filter);
    if pairs.len() > 0 {
        let pre = pairs.drop_last();
        assert(budget_names(pre).no_duplicates()) by {
            assert forall|i: int, j: int|
                0 <= i < pre.len() && 0 <= j < pre.len() && i != j implies budget_names(pre)[i]
                != budget_names(pre)[j] by {
                assert(budget_names(pre)[i] == budget_names(pairs)[i]);
                assert(budget_names(pre)[j] == budget_names(pairs)[j]);
            }
        }
        lemma_removal_keeps_names_unique(pre, name, pred);
        let last = pairs.last();
        if pred(last) {
            assert(pairs.filter(pred) =~= pre.filter(pred).push(last));
            assert forall|i: int, j: int|
                0 <= i < pairs.filter(pred).len() && 0 <= j < pairs.filter(pred).len() && i != j
                implies budget_names(pairs.filter(pred))[i] != budget_names(
                pairs.filter(pred),
            )[j] by {
                let f = pairs.filter(pred);
                let g = pre.filter(pred);
                if i < g.len() && j < g.len() {
                    assert(budget_names(f)[i] == budget_names(g)[i]);
                    assert(budget_names(f)[j] == budget_names(g)[j]);
                } else if i == g.len() && j < g.len() {
                    assert(g.contains(g[j]));
                    assert(pre.contains(g[j]));
                    let k = choose|k: int| 0 <= k < pre.len() && pre[k] == g[j];
                    assert(budget_names(pairs)[k] == pre[k].0);
                    assert(budget_names(pairs)[pairs.len() - 1] == last.0);
                } else if j == g.len() && i < g.len() {
                    assert(g.contains(g[i]));
                    assert(pre.contains(g[i]));
                    let k = choose|k: int| 0 <= k < pre.len() && pre[k] == g[i];
                    assert(budget_names(pairs)[k] == pre[k].0);
                    assert(budget_names(pairs)[pairs.len() - 1] == last.0);
                }
            }
        } else {
            assert(pairs.filter(pred) =~= pre.filter(pred));
        }
    }
    assert forall|p: (Seq<char>, u64)| pairs.filter(pred).contains(p) implies pairs.contains(p)
        && p.0 != name by {
        pairs.lemma_filter_contains_rev(pred, p);
        let f = pairs.filter(pred);
        let k = choose|k: int| 0 <= k < f.len() && f[k] == p;
        pairs.lemma_filter_pred(pred, k);
    }
}

/// The budget of `fn_name`, if it has one.
pub fn budget_for(state: &OutlierState, fn_name: &str) -> (r: Option<u64>)
    requires
        state.wf(),
    ensures
        r == budget_of(state.budget_view(), fn_name@),
{
    let name = String::from_str(fn_name);
    match find_budget(&state.budgets, &name) {
        Some(i) => Some(state.budgets[i].1),
        None => None,
    }
}

/// Whether a call of `fn_name` has to be examined at all: outlier detection
/// is on, or the function has a budget.
pub fn needs_check(state: &OutlierState, fn_name: &str) -> (r: bool)
    requires
        state.wf(),
    ensures
        r == (state.enabled || budget_of(state.budget_view(), fn_name@) is Some),
{
    if state.enabled {
        return true;
    }
    budget_for(state, fn_name).is_some()
}

/// Checks one finished call against its function's budget. A call that ran
/// longer than the budget is recorded as a violation; the result tells
/// whether it did.
pub fn check_budget(
    state: &mut OutlierState,
    fn_name: &str,
    duration_ns: u64,
    call_index: u64,
    thread: u64,
    timestamp_ns: u64,
) -> (exceeded: bool)
    requires
        old(state).wf(),
    ensures
        final(state).wf(),
        final(state).enabled == old(state).enabled,
        final(state).budgets == old(state).budgets,
        ({
            let b = budget_of(old(state).budget_view(), fn_name@);
            exceeded == (b matches Some(ns) && duration_ns > ns)
        }),
        !exceeded ==> final(state).violations@ == old(state).violations@,
        exceeded ==> ({
            let ns = budget_of(old(state).budget_view(), fn_name@)->0;
            let v = final(state).violations@.last();
            &&& final(state).violations@.drop_last() == old(state).violations@
            &&& final(state).violations@.len() == old(state).violations@.len() + 1
            &&& v.function@ == fn_name@
            &&& v.call_index == call_index
            &&& v.duration_ns == duration_ns
            &&& v.budget_ns == ns
            &&& v.exceeded_by_ns == duration_ns - ns
            &&& v.thread == thread
            &&& v.timestamp_ns == timestamp_ns
        }),
{
    match budget_for(state, fn_name) {
        Some(budget_ns) => {
            if duration_ns > budget_ns {
                let ghost before = state.violations@;
                state.violations.push(
                    BudgetViolation {
                        function: String::from_str(fn_name),
                        call_index,
                        duration_ns,
                        budget_ns,
                        exceeded_by_ns: duration_ns - budget_ns,
                        thread,
                        timestamp_ns,
                    },
                );
                assert(state.violations@.drop_last() =~= before);
                true
            } else {
                false
            }
        },
        None => false,
    }
}

/// Forgets all violations; budgets and the detection switch stay.
pub fn reset(state: &mut OutlierState)
    ensures
        final(state).violations@.len() == 0,
        final(state).budgets == old(state).budgets,
        final(state).enabled == old(state).enabled,
{
    state.violations = Vec::new();
}

/// After giving `name` a budget, `name` has exactly that budget and every
/// other function keeps the budget it had.
pub proof fn lemma_set_then_budget(pairs: Seq<(Seq<char>, u64)>, name: Seq<char>, ns: u64, other: Seq<
    char,
>)
    requires
        budget_names(pairs).no_duplicates(),
    ensures
        budget_of(with_budget(pairs, name, ns), name) == Some(ns),
        other != name ==> budget_of(with_budget(pairs, name, ns), other) == budget_of(pairs, other),
{
    let names = budget_names(pairs);
    let after = with_budget(pairs, name, ns);
    let names2 = budget_names(after);
    if names.contains(name) {
        let p = names.index_of(name);
        assert(names2 =~= names);
        assert(names2.index_of(name) == p);
        if other != name && names.contains(other) {
            let q = names.index_of(other);
            assert(names[q] == other);
            assert(q != p);
        }
    } else {
        assert(names2 =~= names.push(name));
        assert(names2[pairs.len() as int] == name);
        assert(names2.no_duplicates()) by {
            assert forall|i: int, j: int|
                0 <= i < names2.len() && 0 <= j < names2.len() && i != j implies names2[i]
                != names2[j] by {
                if i < names.len() && j == names.len() {
                    assert(names.contains(names[i]));
                } else if j < names.len() && i == names.len() {
                    assert(names.contains(names[j]));
                }
            }
        }
        assert(names2.index_of(name) == pairs.len() as int) by {
            let c = names2.index_of(name);
            assert(names2[c] == name);
        }
        if other != name {
            if names.contains(other) {
                let q = names.index_of(other);
                assert(names2[q] == other);
                assert(names2.index_of(other) == q) by {
                    let c = names2.index_of(other);
                    assert(names2[c] == other);
                }
            } else {
                assert(!names2.contains(other)) by {
                    if names2.contains(other) {
                        let c = names2.index_of(other);
                        assert(names2[c] == other);
                        assert(c < names.len());
                        assert(names[c] == other);
                    }
                }
            }
        }
    }
}

/// After removing the budget of `name`, `name` has none and every other
/// function keeps the budget it had.
pub proof fn lemma_remove_then_budget(pairs: Seq<(Seq<char>, u64)>, name: Seq<char>, other: Seq<
    char,
>)
    requires
        budget_names(pairs).no_duplicates(),
    ensures
        budget_of(pairs.filter(|p: (Seq<char>, u64)| p.0 != name), name) is None,
        other != name ==> budget_of(pairs.filter(|p: (Seq<char>, u64)| p.0 != name), other)
            == budget_of(pairs, other),
{
    broadcast use vstd::seq_lib::group_filter_ensures;

    let pred = |p: (Seq<char>, u64)| p.0 != name;
    let f = pairs.filter(pred);
    lemma_removal_keeps_names_unique(pairs, name, pred);
    let fnames = budget_names(f);
    let names = budget_names(pairs);
    if fnames.contains(name) {
        let c = fnames.index_of(name);
        assert(fnames[c] == name);
        assert(f.contains(f[c]));
    }
    if other != name {
        if names.contains(other) {
            let q = names.index_of(other);
            assert(names[q] == other);
            assert(pred(pairs[q]));
            pairs.lemma_filter_contains(pred, q);
            assert(f.contains(pairs[q]));
            let c = choose|c: int| 0 <= c < f.len() && f[c] == pairs[q];
            assert(fnames[c] == other);
            assert(fnames.contains(other));
            let c2 = fnames.index_of(other);
            assert(fnames[c2] == other);
            assert(c2 == c);
            assert(f.contains(f[c2]));
        } else {
            if fnames.contains(other) {
                let c = fnames.index_of(other);
                assert(fnames[c] == other);
                assert(f.contains(f[c]));
                assert(pairs.contains(f[c]));
                let k = choose|k: int| 0 <= k < pairs.len() && pairs[k] == f[c];
                assert(names[k] == pairs[k].0);
                assert(f[c].0 == other);
                assert(names.contains(other));
            }
        }
    }
}

} // verus!
