use rustscope::locks::{
    can_record_acquired, can_record_released, record_lock_acquired, record_lock_released, record_lock_wait_start,
    register_lock, snapshot, LockId, LockTable,
};
use rustscope::metadata::{self, CiEnv, SessionMeta};
use rustscope::schema::session_sections;
use rustscope::outliers::{self, OutlierState};
use rustscope::timeline::{self, EventFilter, Timeline};

fn rec(tl: &mut Timeline, name: &str, t: u64, dur: u64, alloc: u64, outlier: bool, budget: bool) {
    timeline::record(tl, name, t, dur, dur, 1, 0, alloc, 0, outlier, budget);
}

// ─── timeline ────────────────────────────────────────────────────────────────

#[test]
fn test_timeline_records_events() {
    let mut tl = Timeline::new();
    timeline::enable(&mut tl);
    for i in 0..5u64 {
        rec(&mut tl, "timeline_fn", i * 100, 100, 0, false, false);
    }
    assert_eq!(timeline::event_count(&tl), 5, "should record 5 events");
    let events = timeline::collect(&tl);
    assert!(events.iter().all(|e| e.name == "timeline_fn"));
    assert!(events.iter().all(|e| e.dur_ns > 0));
    let mut prev_t = 0u64;
    for e in &events {
        assert!(e.t >= prev_t, "timeline events should be non-decreasing in time");
        prev_t = e.t;
    }
}

#[test]
fn test_timeline_disabled_by_default() {
    let mut tl = Timeline::new();
    assert!(!timeline::is_enabled(&tl));
    for i in 0..10u64 {
        rec(&mut tl, "no_timeline_fn", i, 10, 0, false, false);
    }
    assert_eq!(timeline::event_count(&tl), 0, "should record nothing when disabled");
}

#[test]
fn test_timeline_reset_clears_events() {
    let mut tl = Timeline::new();
    timeline::enable(&mut tl);
    rec(&mut tl, "reset_timeline_fn", 0, 1, 0, false, false);
    assert_eq!(timeline::event_count(&tl), 1);
    timeline::reset(&mut tl);
    assert_eq!(timeline::event_count(&tl), 0, "reset should clear timeline events");
    assert!(timeline::is_enabled(&tl));
}

#[test]
fn timeline_small_cap_is_a_maximum() {
    let mut tl = Timeline::new();
    timeline::enable(&mut tl);
    timeline::set_max_events(&mut tl, 5);
    for i in 0..6u64 {
        rec(&mut tl, "f", i, 1, 0, false, false);
    }
    let ev = timeline::collect(&tl);
    assert_eq!(ev.len(), 5);
    assert_eq!(ev.iter().map(|e| e.t).collect::<Vec<_>>(), vec![1, 2, 3, 4, 5]);
    for i in 6..30u64 {
        rec(&mut tl, "f", i, 1, 0, false, false);
        assert!(timeline::event_count(&tl) <= 5);
    }
    assert_eq!(timeline::collect(&tl).last().unwrap().t, 29);
}

#[test]
fn timeline_drops_oldest_tenth_when_full() {
    let mut tl = Timeline::new();
    timeline::enable(&mut tl);
    timeline::set_max_events(&mut tl, 20);
    for i in 0..20u64 {
        rec(&mut tl, "f", i, 1, 0, false, false);
    }
    assert_eq!(timeline::event_count(&tl), 20);
    rec(&mut tl, "f", 20, 1, 0, false, false);
    let ev = timeline::collect(&tl);
    assert_eq!(ev.len(), 19);
    assert_eq!(ev[0].t, 2);
    assert_eq!(ev[18].t, 20);
    timeline::disable(&mut tl);
    rec(&mut tl, "f", 21, 1, 0, false, false);
    assert_eq!(timeline::event_count(&tl), 19);
}

#[test]
fn timeline_filters_and_summary() {
    let mut tl = Timeline::new();
    timeline::enable(&mut tl);
    rec(&mut tl, "a", 0, 50, 10, false, false);
    rec(&mut tl, "b", 10, 500, 0, true, false);
    rec(&mut tl, "a", 20, 500, 300, false, true);
    rec(&mut tl, "c", 900, 5, 300, false, false);
    let slow = timeline::select(&tl, &EventFilter::SlowerThan(100));
    assert_eq!(slow.len(), 2);
    assert_eq!(timeline::select(&tl, &EventFilter::Outliers)[0].name, "b");
    assert_eq!(timeline::select(&tl, &EventFilter::BudgetExceeded)[0].t, 20);
    assert_eq!(timeline::select(&tl, &EventFilter::All).len(), 4);
    assert!(timeline::summary_in_range(&tl));
    let s = timeline::summarize(&tl);
    assert_eq!(s.total_events, 4);
    assert_eq!(s.outlier_count, 1);
    assert_eq!(s.budget_exceeded_count, 1);
    assert_eq!(s.unique_functions, 3);
    // ties keep the earlier event
    assert_eq!(s.slowest_call.as_ref().unwrap().name, "b");
    assert_eq!(s.most_allocating_call.as_ref().unwrap().t, 20);
    assert_eq!(s.total_alloc_bytes, 610);
    assert_eq!(s.timeline_span_ns, 905);
}

#[test]
fn timeline_summary_of_nothing() {
    let tl = Timeline::new();
    let s = timeline::summarize(&tl);
    assert_eq!(s.total_events, 0);
    assert!(s.slowest_call.is_none());
    assert_eq!(s.timeline_span_ns, 0);
}

#[test]
fn timeline_summary_range_check() {
    let mut tl = Timeline::new();
    timeline::enable(&mut tl);
    rec(&mut tl, "a", u64::MAX - 1, 5, 0, false, false);
    assert!(!timeline::summary_in_range(&tl));
}

// ─── metadata ────────────────────────────────────────────────────────────────

#[test]
fn test_metadata_appears_in_session() {
    let mut m = SessionMeta::new();
    metadata::set(&mut m, "git_commit", "abc1234");
    metadata::tag(&mut m, "test-run");
    metadata::set_name(&mut m, "metadata_test");
    let meta = metadata::get(&m);
    assert_eq!(meta.session_name.as_deref(), Some("metadata_test"));
    assert!(meta.kv.iter().any(|(k, v)| k == "git_commit" && v == "abc1234"));
    assert!(meta.tags.iter().any(|t| t == "test-run"));
}

#[test]
fn test_metadata_reset_clears() {
    let mut m = SessionMeta::new();
    metadata::set(&mut m, "key", "value");
    assert!(!metadata::is_empty(&m));
    metadata::reset(&mut m);
    assert!(metadata::is_empty(&m), "reset should clear all metadata");
}

#[test]
fn metadata_with_only_a_description_is_not_empty() {
    let mut m = SessionMeta::new();
    assert!(metadata::is_empty(&m));
    metadata::set_description(&mut m, "nightly perf run");
    assert!(!metadata::is_empty(&m));
    let mut e = SessionMeta::new();
    metadata::set_environment(&mut e, "ci");
    assert!(!metadata::is_empty(&e));
}

#[test]
fn test_metadata_tag_deduplication() {
    let mut m = SessionMeta::new();
    metadata::tag(&mut m, "duplicate");
    metadata::tag(&mut m, "duplicate");
    metadata::tag(&mut m, "duplicate");
    let got = metadata::get(&m);
    assert_eq!(got.tags.iter().filter(|t| t.as_str() == "duplicate").count(), 1, "duplicate tags should be deduplicated");
}

#[test]
fn metadata_set_replaces_and_untag_removes() {
    let mut m = SessionMeta::new();
    metadata::set(&mut m, "branch", "main");
    metadata::set_u64(&mut m, "build_number", 4821);
    metadata::set(&mut m, "branch", "dev");
    assert_eq!(m.kv, vec![("branch".to_string(), "dev".to_string()), ("build_number".to_string(), "4821".to_string())]);
    metadata::tag(&mut m, "nightly");
    metadata::tag(&mut m, "regression-test");
    metadata::untag(&mut m, "nightly");
    assert_eq!(m.tags, vec!["regression-test".to_string()]);
    metadata::set_description(&mut m, "d");
    metadata::set_environment(&mut m, "ci");
    assert_eq!(m.description.as_deref(), Some("d"));
    assert_eq!(m.environment.as_deref(), Some("ci"));
}

#[test]
fn metadata_from_github_actions() {
    let mut m = SessionMeta::new();
    assert!(metadata::needs_git_commit(&m));
    let env = CiEnv {
        github_actions: true,
        github_sha: Some("0123456789abcdef".to_string()),
        github_ref_name: Some("main".to_string()),
        github_run_number: None,
        github_repository: Some("o/r".to_string()),
        gitlab_ci: false,
        ci_commit_short_sha: None,
        ci_commit_ref_name: None,
        ci_pipeline_id: None,
        ci: true,
    };
    metadata::apply_ci_env(&mut m, &env);
    let kv: Vec<(&str, &str)> = m.kv.iter().map(|(k, v)| (k.as_str(), v.as_str())).collect();
    assert_eq!(kv, vec![("git_commit", "01234567"), ("branch", "main"), ("repo", "o/r"), ("environment", "ci")]);
    assert_eq!(m.tags, vec!["github-actions".to_string(), "ci".to_string()]);
    assert!(!metadata::needs_git_commit(&m));
}

#[test]
fn github_sha_is_cut_after_eight_bytes() {
    let mut m = SessionMeta::new();
    let env = CiEnv {
        github_actions: true,
        // "é" takes two bytes, so eight bytes hold six characters
        github_sha: Some("ééabcdefgh".to_string()),
        github_ref_name: None,
        github_run_number: None,
        github_repository: None,
        gitlab_ci: false,
        ci_commit_short_sha: None,
        ci_commit_ref_name: None,
        ci_pipeline_id: None,
        ci: false,
    };
    metadata::apply_ci_env(&mut m, &env);
    assert_eq!(m.kv[0], ("git_commit".to_string(), "ééabcd".to_string()));
}

#[test]
fn tag_then_untag_restores_tags() {
    let mut m = SessionMeta::new();
    metadata::tag(&mut m, "a");
    metadata::tag(&mut m, "b");
    let before = m.tags.clone();
    metadata::tag(&mut m, "new");
    metadata::untag(&mut m, "new");
    assert_eq!(m.tags, before);
}

#[test]
fn metadata_from_gitlab() {
    let mut m = SessionMeta::new();
    let env = CiEnv {
        github_actions: false,
        github_sha: None,
        github_ref_name: None,
        github_run_number: None,
        github_repository: None,
        gitlab_ci: true,
        ci_commit_short_sha: Some("abcd".to_string()),
        ci_commit_ref_name: None,
        ci_pipeline_id: Some("77".to_string()),
        ci: false,
    };
    metadata::apply_ci_env(&mut m, &env);
    let kv: Vec<(&str, &str)> = m.kv.iter().map(|(k, v)| (k.as_str(), v.as_str())).collect();
    assert_eq!(kv, vec![("git_commit", "abcd"), ("ci_run", "77"), ("environment", "ci")]);
    assert_eq!(m.tags, vec!["gitlab-ci".to_string()]);
}

#[test]
fn metadata_loads_prefixed_variables() {
    let mut m = SessionMeta::new();
    let vars = vec![
        ("MYAPP_BUILD_ID".to_string(), "42".to_string()),
        ("OTHER".to_string(), "x".to_string()),
        ("MYAPP".to_string(), "y".to_string()),
        ("MYAPP_Region".to_string(), "eu".to_string()),
    ];
    metadata::load_from_env(&mut m, "myapp", &vars);
    let kv: Vec<(&str, &str)> = m.kv.iter().map(|(k, v)| (k.as_str(), v.as_str())).collect();
    assert_eq!(kv, vec![("build_id", "42"), ("region", "eu")]);
}

// ─── budgets ─────────────────────────────────────────────────────────────────

#[test]
fn test_budget_violation_fires() {
    let mut st = OutlierState::new();
    outliers::set_budget(&mut st, "budget_fn", 1_000_000);
    assert!(!outliers::check_budget(&mut st, "budget_fn", 2_000, 1, 1, 10));
    assert!(!outliers::check_budget(&mut st, "budget_fn", 3_000, 2, 1, 20));
    assert!(outliers::check_budget(&mut st, "budget_fn", 10_000_000, 3, 1, 30));
    let violations = &st.violations;
    assert!(!violations.is_empty(), "should record the budget violation");
    assert!(violations[0].exceeded_by_ns > 0, "exceeded_by should be positive");
    assert!(violations[0].exceeded_by_ns > violations[0].budget_ns, "exceeded by more than 100%");
    assert_eq!(violations[0].exceeded_by_ns, 9_000_000);
    assert_eq!(violations[0].call_index, 3);
}

#[test]
fn budgets_replace_and_remove() {
    let mut st = OutlierState::new();
    assert!(outliers::needs_check(&st, "f"));
    outliers::disable_outlier_detection(&mut st);
    assert!(!outliers::needs_check(&st, "f"));
    outliers::set_budget(&mut st, "f", 100);
    outliers::set_budget(&mut st, "g", 5);
    outliers::set_budget(&mut st, "f", 200);
    assert_eq!(outliers::budget_for(&st, "f"), Some(200));
    assert!(outliers::needs_check(&st, "f"));
    assert_eq!(st.budgets.len(), 2);
    outliers::remove_budget(&mut st, "f");
    assert_eq!(outliers::budget_for(&st, "f"), None);
    assert_eq!(outliers::budget_for(&st, "g"), Some(5));
    assert!(!outliers::check_budget(&mut st, "none", 1_000, 0, 0, 0));
    assert!(!outliers::check_budget(&mut st, "g", 5, 0, 0, 0));
    assert!(outliers::check_budget(&mut st, "g", 6, 0, 0, 0));
    outliers::reset(&mut st);
    assert!(st.violations.is_empty());
    assert_eq!(st.budgets.len(), 1);
    outliers::enable_outlier_detection(&mut st);
    assert!(st.enabled);
}

// ─── locks ───────────────────────────────────────────────────────────────────

#[test]
fn lock_ids_count_up() {
    let mut c = 7u64;
    assert_eq!(LockId::new(&mut c).0, 7);
    assert_eq!(c, 8);
}

#[test]
fn lock_wait_and_hold_times_add_up() {
    let mut t = LockTable::new();
    let a = register_lock(&mut t, "queue");
    let b = register_lock(&mut t, "cache");
    assert_ne!(a.0, b.0);
    let w = record_lock_wait_start(a, 100);
    assert!(can_record_acquired(&t, &w, 150));
    let h = record_lock_acquired(&mut t, w, 150);
    assert!(h.contended);
    assert!(can_record_released(&t, &h, 400));
    record_lock_released(&mut t, h, 400);
    let w = record_lock_wait_start(a, 500);
    let h = record_lock_acquired(&mut t, w, 500);
    assert!(!h.contended);
    record_lock_released(&mut t, h, 510);
    let r = snapshot(&t);
    assert_eq!(r.len(), 2);
    assert_eq!(r[0].name, "queue");
    assert_eq!(r[0].acquisitions, 2);
    assert_eq!(r[0].contended_acquisitions, 1);
    assert_eq!(r[0].contention_count, 1);
    assert_eq!(r[0].wait_ns, 50);
    assert_eq!(r[0].total_wait_ns, 50);
    assert_eq!(r[0].hold_ns, 260);
    assert_eq!(r[1].acquisitions, 0);
}

#[test]
fn session_sections_follow_the_features() {
    let s = session_sections(true, 0, 0, false, false, 0);
    assert_eq!(s.schema_version, 3);
    assert!(!s.session_meta && !s.outlier_summary && !s.timeline_summary && !s.thread_report && !s.async_spans);
    let s = session_sections(false, 0, 2, true, true, 1);
    assert!(s.session_meta && s.outlier_summary && s.timeline_summary && s.thread_report && s.async_spans);
    assert!(session_sections(true, 1, 0, false, false, 0).outlier_summary);
}

#[test]
fn lock_ids_are_fresh() {
    let mut t = LockTable::new();
    let a = register_lock(&mut t, "a");
    let b = register_lock(&mut t, "b");
    let c = register_lock(&mut t, "a");
    assert!(a != b && b != c && a != c);
    assert_eq!(snapshot(&t).len(), 3);
}
