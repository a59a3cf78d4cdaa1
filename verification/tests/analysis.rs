use rustscope::async_profile::{collect_async_tasks, next_task_id, AsyncAggregates, SpanAggregate, SpanTimings};
use rustscope::bench::BenchAccumulator;
use rustscope::diff::{
    classify, order_by_change, pair_benchmarks, pair_functions, primary_metric_value, severity_of, 
    tally, DiffStatus, DiffSummary, FunctionKey, MetricValues, Outcome, Pairing, PrimaryMetric, RegressionSeverity,
};
use rustscope::memory::AllocSnapshot;
use rustscope::order::order_desc;
use rustscope::thread_profile::{
    collect_counts, cross_thread_fns, current_thread_name, current_thread_num, functions_by_total, record_call,
    ThreadFnStats, ThreadProfiler,
};

fn key(name: &str, calls: u64) -> FunctionKey {
    FunctionKey { name: name.to_string(), call_count: calls }
}

fn outcome(status: DiffStatus, severity: Option<RegressionSeverity>, mem: bool) -> Outcome {
    Outcome { status, severity, memory_regressed: mem, change_ns: 0 }
}

// ─── diff ────────────────────────────────────────────────────────────────────

#[test]
fn diff_classifies_changes() {
    // below the noise floor nothing changed, whatever the percentages say
    assert_eq!(classify(1000, 1040, 50, true, false), DiffStatus::Unchanged);
    assert_eq!(classify(1000, 2000, 50, true, false), DiffStatus::Regression);
    assert_eq!(classify(2000, 1000, 50, false, true), DiffStatus::Improvement);
    assert_eq!(classify(1000, 1100, 50, false, false), DiffStatus::Unchanged);
    assert_eq!(severity_of(true, true), RegressionSeverity::Critical);
    assert_eq!(severity_of(false, true), RegressionSeverity::Moderate);
    assert_eq!(severity_of(false, false), RegressionSeverity::Minor);
}

#[test]
fn diff_reads_the_primary_metric() {
    let v = MetricValues { mean_ns: 1, p99_ns: 2, p95_ns: 3, p50_ns: 4, self_ns: 5 };
    assert_eq!(primary_metric_value(&v, PrimaryMetric::MeanNs), 1);
    assert_eq!(primary_metric_value(&v, PrimaryMetric::P99Ns), 2);
    assert_eq!(primary_metric_value(&v, PrimaryMetric::P95Ns), 3);
    assert_eq!(primary_metric_value(&v, PrimaryMetric::P50Ns), 4);
    assert_eq!(primary_metric_value(&v, PrimaryMetric::SelfNs), 5);
}

#[test]
fn diff_pairs_functions_by_name() {
    let baseline = vec![key("a", 10), key("b", 10), key("rare", 1), key("a", 20)];
    let current = vec![key("c", 10), key("a", 10), key("rare", 9)];
    let p = pair_functions(&baseline, &current, 5);
    assert_eq!(p, vec![Pairing::Removed(1), Pairing::Matched(3, 1), Pairing::New(0), Pairing::New(2)]);
    let b = pair_benchmarks(&baseline, &current);
    assert_eq!(b, vec![Pairing::Matched(2, 2), Pairing::Matched(3, 1), Pairing::New(0)]);
}

#[test]
fn diff_summary_follows_pairings() {
    let baseline = vec![key("a", 10), key("b", 10), key("a", 20)];
    let current = vec![key("c", 10), key("a", 10), key("d", 10)];
    let p = pair_functions(&baseline, &current, 5);
    let os: Vec<Outcome> = p
        .iter()
        .map(|x| match x {
            Pairing::Matched(_, _) => outcome(DiffStatus::Improvement, None, false),
            Pairing::Removed(_) => outcome(DiffStatus::Removed, None, false),
            Pairing::New(_) => outcome(DiffStatus::New, None, false),
        })
        .collect();
    let s = tally(&os);
    assert_eq!(s.removed_functions, 1);
    assert_eq!(s.new_functions, 2);
    assert_eq!(s.improvements, 1);
    assert_eq!(p.len(), 4);
}

#[test]
fn diff_tallies_outcomes() {
    let os = vec![
        outcome(DiffStatus::Regression, Some(RegressionSeverity::Minor), false),
        outcome(DiffStatus::Regression, Some(RegressionSeverity::Critical), true),
        outcome(DiffStatus::Improvement, None, false),
        outcome(DiffStatus::Unchanged, None, true),
        outcome(DiffStatus::New, None, false),
        outcome(DiffStatus::Removed, None, false),
        outcome(DiffStatus::Regression, Some(RegressionSeverity::Moderate), false),
    ];
    let s = tally(&os);
    assert_eq!(
        s,
        DiffSummary {
            regressions_critical: 1,
            regressions_moderate: 1,
            regressions_minor: 1,
            improvements: 1,
            unchanged: 1,
            new_functions: 1,
            removed_functions: 1,
            memory_regressions: 2,
        }
    );
    assert!(s.has_critical_regressions());
    assert!(s.has_any_regressions());
    let empty = DiffSummary::default();
    assert!(!empty.has_any_regressions());
    assert!(!empty.has_critical_regressions());
    assert_eq!(order_by_change(&os), vec![0, 1, 2, 3, 4, 5, 6]);
}

#[test]
fn report_lists_largest_change_first() {
    let mut os = vec![
        outcome(DiffStatus::Regression, Some(RegressionSeverity::Critical), false),
        outcome(DiffStatus::Regression, Some(RegressionSeverity::Minor), false),
        outcome(DiffStatus::New, None, false),
        outcome(DiffStatus::Improvement, None, false),
    ];
    os[0].change_ns = 100;
    os[1].change_ns = 5_000;
    os[3].change_ns = 100;
    assert_eq!(order_by_change(&os), vec![1, 0, 3, 2]);
}

// ─── ordering ────────────────────────────────────────────────────────────────

#[test]
fn order_desc_is_stable() {
    assert_eq!(order_desc(&vec![5, 9, 5, 1, 9]), vec![1, 4, 0, 2, 3]);
    assert_eq!(order_desc(&vec![]), Vec::<usize>::new());
}

// ─── threads ─────────────────────────────────────────────────────────────────

#[test]
fn thread_numbers_are_fixed_on_first_use() {
    let mut counter = 1u64;
    let mut slot_a = None;
    let mut slot_b = None;
    assert_eq!(current_thread_num(&mut slot_a, &mut counter), 1);
    assert_eq!(current_thread_num(&mut slot_b, &mut counter), 2);
    assert_eq!(current_thread_num(&mut slot_a, &mut counter), 1);
    assert_eq!(counter, 3);
    let mut name = None;
    assert_eq!(current_thread_name(&mut name, None), "<unnamed>");
    assert_eq!(current_thread_name(&mut name, Some("worker")), "<unnamed>");
    let mut name2 = None;
    assert_eq!(current_thread_name(&mut name2, Some("worker")), "worker");
}

#[test]
fn thread_report_orders_threads_and_functions() {
    let mut tp = ThreadProfiler::new();
    record_call(&mut tp, 1, "main", "f", 100, 100);
    assert!(tp.threads.is_empty());
    tp.enable();
    assert!(tp.is_enabled());
    record_call(&mut tp, 1, "main", "f", 100, 60);
    record_call(&mut tp, 1, "main", "g", 300, 300);
    record_call(&mut tp, 2, "worker", "f", 500, 500);
    record_call(&mut tp, 1, "main", "f", 50, 50);
    assert_eq!(tp.threads.len(), 2);
    assert_eq!(tp.threads[0].active_ns, 410);
    assert_eq!(tp.threads[0].fns[0].call_count, 2);
    assert_eq!(tp.threads[0].fns[0].total_ns, 150);
    let sorted = functions_by_total(&tp.threads[0].fns);
    assert_eq!(sorted.iter().map(|f| f.name.as_str()).collect::<Vec<_>>(), vec!["g", "f"]);
    let cross = cross_thread_fns(&tp);
    assert_eq!(cross.len(), 1);
    assert_eq!(cross[0].name, "f");
    assert_eq!(cross[0].thread_count, 2);
    assert_eq!(cross[0].total_ns_across_threads, 650);
    assert!(cross[0].concurrent);
    let r = collect_counts(&tp);
    assert_eq!(r.busiest_thread.as_deref(), Some("worker"));
    assert_eq!(r.threads[0].thread_id, 2);
    assert_eq!(r.threads[1].functions[0].name, "g");
}

#[test]
fn functions_by_total_keeps_ties_in_order() {
    let fs = vec![
        ThreadFnStats { name: "a".to_string(), call_count: 1, total_ns: 5, self_ns: 5 },
        ThreadFnStats { name: "b".to_string(), call_count: 1, total_ns: 7, self_ns: 7 },
        ThreadFnStats { name: "c".to_string(), call_count: 1, total_ns: 5, self_ns: 5 },
    ];
    let r = functions_by_total(&fs);
    assert_eq!(r.iter().map(|f| f.name.as_str()).collect::<Vec<_>>(), vec!["b", "a", "c"]);
}

// ─── async ───────────────────────────────────────────────────────────────────

#[test]
fn async_spans_accumulate_active_and_idle_time() {
    let mut ids = 1u64;
    let id = next_task_id(&mut ids);
    assert_eq!(id, 1);
    assert_eq!(ids, 2);
    let mut t = SpanTimings::new(1000, id);
    t.on_enter(1100);
    t.on_exit(1150);
    t.on_enter(1300);
    t.on_exit(1400);
    t.on_exit(1500);
    assert_eq!(t.first_poll_at, Some(1100));
    assert_eq!(t.poll_count, 2);
    assert_eq!(t.suspension_count, 1);
    assert_eq!(t.active_ns_accum, 150);
    let mut aggs = AsyncAggregates::new();
    aggs.on_new_span("fetch", Some("a.rs".to_string()), Some(3), None);
    aggs.on_new_span("fetch", None, None, None);
    aggs.on_close("fetch", &t, 2000);
    aggs.on_close("unknown", &t, 2000);
    assert_eq!(aggs.spans.len(), 1);
    let a = &aggs.spans[0].1;
    assert_eq!(a.file.as_deref(), Some("a.rs"));
    assert_eq!(a.span_count, 1);
    assert_eq!(a.max_polls, 2);
    assert_eq!(a.task_ids, vec![1]);
    assert_eq!(a.first_poll_timing.total_ns, 100);
    let r = collect_async_tasks(&aggs);
    assert_eq!(r.len(), 1);
    assert_eq!(r[0].name, "fetch");
    assert_eq!(r[0].total_active_ns, 150);
    assert_eq!(r[0].total_idle_ns, 850);
    assert_eq!(r[0].poll_count, 2);
}

#[test]
fn span_aggregate_keeps_at_most_a_hundred_task_ids() {
    let mut a = SpanAggregate::new(None, None, None);
    for i in 0..150u64 {
        let t = SpanTimings::new(0, i);
        a.record_closed(&t, 10);
    }
    assert_eq!(a.task_ids.len(), 100);
    assert_eq!(a.span_count, 150);
    assert_eq!(a.wall_timing.total_ns, 1500);
    assert_eq!(a.first_poll_timing.count, 0);
}

// ─── benchmarks ──────────────────────────────────────────────────────────────

#[test]
fn bench_accumulator_sums_iterations() {
    let mut b = BenchAccumulator::new();
    let before = AllocSnapshot { current: 10, peak: 10, total_alloc: 100, total_dealloc: 50, alloc_ops: 4 };
    let after = AllocSnapshot { current: 30, peak: 70, total_alloc: 160, total_dealloc: 80, alloc_ops: 7 };
    b.record_iteration(40, before, after);
    b.record_iteration(60, before, before);
    let r = b.finish(2, 1, 100, true);
    assert_eq!(r.iterations, 2);
    assert_eq!(r.warmup_iterations, 1);
    assert_eq!(r.total_ns, 100);
    assert_eq!(r.avg_ns, 50);
    assert_eq!(r.raw_samples_ns, Some(vec![40, 60]));
    let m = r.memory.unwrap();
    assert_eq!(m.total_alloc_bytes, 60);
    assert_eq!(m.total_dealloc_bytes, 30);
    assert_eq!(m.alloc_count, 3);
    assert_eq!(m.peak_delta_bytes, 60);
    assert_eq!(m.net_retained_bytes, 30);
    let none = b.finish(0, 0, 0, false);
    assert_eq!(none.avg_ns, 0);
    assert!(none.memory.is_none());
}
