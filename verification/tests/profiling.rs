use rustscope::calltree::CallStack;
use rustscope::guard::ProfileGuard;
use rustscope::memory::{AllocCounters, AllocSnapshot};
use rustscope::records::{summarize_functions, CallSample, FunctionSummary, FunctionTable, ProfilerState, TimingAccumulator};
use rustscope::stack::{current_call_depth, frame_size, pop_depth, push_depth};

fn snap() -> AllocSnapshot {
    AllocSnapshot { current: 0, peak: 0, total_alloc: 0, total_dealloc: 0, alloc_ops: 0 }
}

/// A profiler with profiling on and a stack whose clock starts at zero.
fn setup() -> (ProfilerState, CallStack) {
    let mut st = ProfilerState::new(1_700_000_000);
    st.enable();
    (st, CallStack::new(0))
}

fn enter(st: &ProfilerState, stack: &mut CallStack, name: &str, now: u64) -> ProfileGuard {
    ProfileGuard::enter(st, stack, name, "tests/profiling.rs", 1, "tests", now, None, snap())
}

fn leave(g: ProfileGuard, st: &mut ProfilerState, stack: &mut CallStack, now: u64) {
    let r = g.exit(st, stack, now, None, snap(), false, None);
    assert!(r.is_some());
}

/// One call of `name` lasting `dur` ns, starting at `*clock`.
fn call(st: &mut ProfilerState, stack: &mut CallStack, name: &str, clock: &mut u64, dur: u64) {
    let g = enter(st, stack, name, *clock);
    *clock += dur;
    leave(g, st, stack, *clock);
}

fn summaries(st: &ProfilerState) -> Vec<FunctionSummary> {
    summarize_functions(&st.table, false, &Vec::new())
}

fn find<'a>(s: &'a [FunctionSummary], name: &str) -> Option<&'a FunctionSummary> {
    s.iter().find(|f| f.name == name)
}

#[test]
fn test_basic_profiling() {
    let (mut st, mut stack) = setup();
    let mut clock = 0u64;
    for i in 0..10u64 {
        call(&mut st, &mut stack, "add", &mut clock, 100 + i);
        clock += 5;
    }
    let s = summaries(&st);
    let rec = find(&s, "add").expect("add should be recorded");
    assert_eq!(rec.call_count, 10);
    assert!(rec.total_ns > 0, "total_ns should be nonzero");
    assert!(rec.min_ns > 0, "min_ns should be nonzero");
    assert!(rec.max_ns >= rec.min_ns, "max >= min");
    assert!(rec.avg_ns > 0, "mean should be nonzero");
    assert_eq!(rec.total_ns, 1045);
    assert_eq!(rec.min_ns, 100);
    assert_eq!(rec.max_ns, 109);
    assert_eq!(rec.avg_ns, 104);
}

#[test]
fn test_call_count_accurate() {
    let (mut st, mut stack) = setup();
    let mut clock = 0u64;
    let n = 50u64;
    for _ in 0..n {
        call(&mut st, &mut stack, "counter_fn", &mut clock, 42);
    }
    let s = summaries(&st);
    let rec = find(&s, "counter_fn").unwrap();
    assert_eq!(rec.call_count, n);
    assert_eq!(st.table.call_count_of("tests", "counter_fn"), 50);
}

#[test]
fn test_recursion_depth() {
    let (mut st, mut stack) = setup();
    let mut guards = Vec::new();
    let mut clock = 0u64;
    for _ in 0..=10 {
        guards.push(enter(&st, &mut stack, "recurse", clock));
        clock += 1;
    }
    assert_eq!(stack.current_call_depth(), 11);
    while let Some(g) = guards.pop() {
        clock += 1;
        leave(g, &mut st, &mut stack, clock);
    }
    let s = summaries(&st);
    let rec = find(&s, "recurse").unwrap();
    assert!(rec.max_recursion_depth >= 10, "should detect recursion depth >= 10, got {}", rec.max_recursion_depth);
    assert_eq!(rec.call_count, 11);
    assert_eq!(st.call_trees.len(), 1);
}

#[test]
fn test_self_time_less_than_total() {
    let (mut st, mut stack) = setup();
    let mut clock = 0u64;
    for _ in 0..5 {
        let outer = enter(&st, &mut stack, "outer", clock);
        clock += 10;
        call(&mut st, &mut stack, "inner", &mut clock, 1000);
        call(&mut st, &mut stack, "inner", &mut clock, 1000);
        clock += 10;
        leave(outer, &mut st, &mut stack, clock);
    }
    let s = summaries(&st);
    let outer_rec = find(&s, "outer").unwrap();
    assert!(
        outer_rec.self_ns <= outer_rec.total_ns,
        "self_ns ({}) must be <= total_ns ({})",
        outer_rec.self_ns,
        outer_rec.total_ns
    );
    assert_eq!(outer_rec.total_ns, 5 * 2020);
    assert_eq!(outer_rec.self_ns, 5 * 20);
    let inner_rec = find(&s, "inner").unwrap();
    assert_eq!(inner_rec.call_count, 10);
    assert_eq!(inner_rec.self_ns, inner_rec.total_ns);
    // one tree per outermost call, each with two children
    assert_eq!(st.call_trees.len(), 5);
    assert_eq!(st.call_trees[0].children.len(), 2);
    assert_eq!(st.call_trees[0].total_ns, 2020);
}

#[test]
fn test_reset_clears_records() {
    let (mut st, mut stack) = setup();
    let mut clock = 0u64;
    for _ in 0..10 {
        call(&mut st, &mut stack, "reset_test_fn", &mut clock, 3);
    }
    assert!(find(&summaries(&st), "reset_test_fn").is_some());
    st.reset();
    assert!(find(&summaries(&st), "reset_test_fn").is_none(), "records should be cleared after reset");
    assert!(st.call_trees.is_empty());
}

#[test]
fn test_profiling_works_after_reset() {
    let (mut st, mut stack) = setup();
    let mut clock = 0u64;
    call(&mut st, &mut stack, "after_reset", &mut clock, 42);
    st.reset();
    for _ in 0..7 {
        call(&mut st, &mut stack, "after_reset", &mut clock, 42);
    }
    let s = summaries(&st);
    let rec = find(&s, "after_reset").unwrap();
    assert_eq!(rec.call_count, 7, "should only count calls after reset");
}

#[test]
fn disabled_profiler_records_nothing() {
    let mut st = ProfilerState::new(0);
    let mut stack = CallStack::new(0);
    assert!(!st.is_enabled());
    let g = enter(&st, &mut stack, "off", 5);
    assert_eq!(stack.current_call_depth(), 0);
    let r = g.exit(&mut st, &mut stack, 9, None, snap(), false, None);
    assert!(r.is_none());
    assert!(st.table.states.is_empty());
}

#[test]
fn exit_reports_the_finished_call() {
    let (mut st, mut stack) = setup();
    let g = ProfileGuard::enter(&st, &mut stack, "work", "a.rs", 7, "m", 100, Some(4096), snap());
    let mut after = snap();
    after.total_alloc = 300;
    after.total_dealloc = 100;
    after.alloc_ops = 2;
    after.peak = 250;
    let r = g.exit(&mut st, &mut stack, 160, Some(4000), after, true, None).unwrap();
    assert_eq!(r.name, "work");
    assert_eq!(r.module, "m");
    assert_eq!(r.start_ns, 100);
    assert_eq!(r.total_ns, 60);
    assert_eq!(r.self_ns, 60);
    assert_eq!(r.call_depth, 0);
    assert_eq!(r.alloc_bytes, 300);
    assert_eq!(r.dealloc_bytes, 100);
    assert_eq!(r.call_index, 1);
    let s = summarize_functions(&st.table, true, &vec!["work".to_string(), "other".to_string(), "work".to_string()]);
    assert_eq!(s[0].frame_size_bytes, Some(96));
    assert_eq!(s[0].outlier_count, 2);
    let m = s[0].memory.as_ref().unwrap();
    assert_eq!(m.total_alloc_bytes, 300);
    assert_eq!(m.total_dealloc_bytes, 100);
    assert_eq!(m.net_retained_bytes, 200);
    assert_eq!(m.alloc_count, 2);
    assert_eq!(m.peak_delta_bytes, 250);
}

#[test]
fn call_tree_nodes_record_children() {
    let (mut st, mut stack) = setup();
    let mut clock = 0u64;
    let main = enter(&st, &mut stack, "main", clock);
    clock += 1;
    call(&mut st, &mut stack, "a", &mut clock, 10);
    call(&mut st, &mut stack, "b", &mut clock, 20);
    clock += 1;
    leave(main, &mut st, &mut stack, clock);
    let root = &st.call_trees[0];
    assert_eq!(root.name, "main");
    assert_eq!(root.total_ns, 32);
    assert_eq!(root.call_count, 1);
    assert_eq!(root.children.iter().map(|c| c.name.as_str()).collect::<Vec<_>>(), vec!["a", "b"]);
    assert_eq!(root.children[1].duration_ns, 20);
}

#[test]
fn timing_accumulator_keeps_min_max_and_mean() {
    let mut t = TimingAccumulator::new();
    assert_eq!(t.min_or_zero(), 0);
    assert_eq!(t.avg_ns(), 0);
    t.record(30, 20);
    t.record(10, 10);
    t.record(50, 5);
    assert_eq!(t.count, 3);
    assert_eq!(t.total_ns, 90);
    assert_eq!(t.self_ns, 35);
    assert_eq!(t.min_or_zero(), 10);
    assert_eq!(t.max_ns, 50);
    assert_eq!(t.avg_ns(), 30);
    assert_eq!(t.reservoir, vec![30, 10, 50]);
}

#[test]
fn function_table_keeps_one_record_per_function() {
    let mut t = FunctionTable::new();
    let smp = CallSample {
        total_ns: 10,
        self_ns: 10,
        frame_size: None,
        recursion_depth: 0,
        call_depth: 3,
        alloc_entry: snap(),
        alloc_exit: snap(),
        allocator_active: false,
        cpu: None,
    };
    t.record("f", "a.rs", 1, "m", &smp);
    t.record("g", "a.rs", 2, "m", &smp);
    t.record("f", "a.rs", 1, "m", &smp);
    t.record("f", "a.rs", 1, "other", &smp);
    assert_eq!(t.states.len(), 3);
    assert_eq!(t.call_count_of("m", "f"), 2);
    assert_eq!(t.call_count_of("other", "f"), 1);
    assert_eq!(t.call_count_of("m", "h"), 0);
    assert_eq!(t.states[0].max_depth, 3);
}

#[test]
fn stack_depth_counter_round_trips() {
    let mut d = 4u32;
    assert_eq!(push_depth(&mut d), 5);
    assert_eq!(current_call_depth(&d), 5);
    pop_depth(&mut d);
    assert_eq!(d, 4);
    let mut z = 0u32;
    pop_depth(&mut z);
    assert_eq!(z, 0);
    assert_eq!(frame_size(0x7000, 0x6f00), 0x100);
    assert_eq!(frame_size(0x6f00, 0x7000), 0);
}

#[test]
fn allocator_counters_track_peak() {
    let mut c = AllocCounters::new();
    assert!(!c.active);
    c.on_alloc(100);
    c.on_alloc(50);
    c.on_dealloc(120);
    c.on_realloc(30, 80);
    c.on_realloc(80, 10);
    assert!(c.active);
    assert_eq!(c.current, 10);
    assert_eq!(c.peak, 150);
    assert_eq!(c.total_alloc, 200);
    assert_eq!(c.total_dealloc, 190);
    assert_eq!(c.alloc_ops, 3);
    let s = c.snapshot();
    assert_eq!(s.peak, 150);
    let before = AllocSnapshot { current: 40, peak: 60, total_alloc: 20, total_dealloc: 5, alloc_ops: 1 };
    assert_eq!(s.alloc_delta(&before), 180);
    assert_eq!(s.dealloc_delta(&before), 185);
    assert_eq!(s.ops_delta(&before), 2);
    assert_eq!(s.peak_delta(&before), 90);
}

#[test]
fn leaf_call_restores_the_stack_and_charges_its_caller() {
    let mut stack = CallStack::new(0);
    stack.enter("outer", "f.rs", 1, "m", 10, None, snap());
    stack.enter("leaf", "f.rs", 2, "m", 15, None, snap());
    assert_eq!(stack.current_call_depth(), 2);
    let e = stack.exit(40, None, snap(), false, None).unwrap();
    assert_eq!(e.name, "leaf");
    assert_eq!(e.total_ns, 25);
    assert_eq!(e.self_ns, 25);
    assert_eq!(e.recursion_depth, 2);
    assert!(e.root.is_none());
    assert_eq!(stack.current_call_depth(), 1);
    assert_eq!(stack.frames[0].child_ns, 25);
    assert_eq!(stack.frames[0].children.len(), 1);
    let outer = stack.exit(50, None, snap(), false, None).unwrap();
    assert_eq!(outer.total_ns, 40);
    assert_eq!(outer.self_ns, 15);
    let root = outer.root.unwrap();
    assert_eq!(root.children[0].name, "leaf");
    assert_eq!(stack.current_call_depth(), 0);
}

#[test]
fn sorted_reservoir_orders_sampled_times() {
    let mut t = TimingAccumulator::new();
    for d in [50u64, 10, 30, 10, 90, 70] {
        t.record(d, d);
    }
    let s = t.sorted_reservoir();
    assert_eq!(s, vec![10, 10, 30, 50, 70, 90]);
    assert!(t.min_or_zero() <= s[0] && s[s.len() - 1] <= t.max_ns);
}

/// Nearest-rank percentile of sorted values, the rank rounded as the
/// runtime rounds it.
fn rank_pct(sorted: &[u64], pct: f64) -> u64 {
    let idx = ((sorted.len() - 1) as f64 * pct).round() as usize;
    sorted[idx.min(sorted.len() - 1)]
}

#[test]
fn test_percentile_ordering() {
    let (mut st, mut stack) = setup();
    let mut clock = 0u64;
    for i in 0..200u64 {
        call(&mut st, &mut stack, "percentile_test", &mut clock, 1_000 + (i * 7919) % 500);
    }
    let fs = st.table.states.iter().find(|f| f.name == "percentile_test").unwrap();
    let sorted = fs.timing.sorted_reservoir();
    let (p50, p95, p99) = (rank_pct(&sorted, 0.50), rank_pct(&sorted, 0.95), rank_pct(&sorted, 0.99));
    assert!(p50 <= p95, "p50 <= p95");
    assert!(p95 <= p99, "p95 <= p99");
    assert!(fs.timing.min_or_zero() <= p50, "min <= p50");
    assert!(p99 <= fs.timing.max_ns, "p99 <= max");
}
