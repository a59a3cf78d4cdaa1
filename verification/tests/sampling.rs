use rustscope::cli::{
    self, group_rollups, parse_control, peak, sampling_window_secs, session_over, session_window, should_fail,
    should_refresh, yes_no, CpuCollector, LiveControl, MemoryCollector, SyscallCollector, ThreadFdCollector,
};
use rustscope::schema::cores_in_cpuinfo;
use rustscope::diff::DiffSummary;
use rustscope::macro_args::{extract_str_arg, extract_u64_arg};
use rustscope::sampler::{
    self, bump, is_unknown_symbol, parse_perf_script, parse_sample_chunk, platform_backend_name, split_double_colon,
    symbol_stats,
};
use rustscope::sampling::{
    build_sample_tree, collector_sleep_us, flat_counts, frame_blocked, interval_us, node_at, select_frames,
    tree_roots, FrameInfo, RingBuffer, SamplingConfig, SamplingProfiler, SamplingReportConfig, SymbolInfo,
    RING_CAPACITY,
};
use rustscope::scan::{contains_seq, lines, parse_u64, split_whitespace, starts_with, string_of, trim};
use rustscope::text::chars_of;

fn cs(s: &str) -> Vec<char> {
    s.chars().collect()
}

fn strs(v: &[Vec<char>]) -> Vec<String> {
    v.iter().map(|l| l.iter().collect()).collect()
}

fn frame(name: &str) -> FrameInfo {
    FrameInfo { name: name.to_string(), file: None, line: None }
}

fn sym(name: Option<&str>, line: u32) -> SymbolInfo {
    SymbolInfo { name: name.map(|n| n.to_string()), file: Some("f.rs".to_string()), line: Some(line) }
}

fn lookup(rows: &[(String, u64)], name: &str) -> Option<u64> {
    rows.iter().find(|(n, _)| n == name).map(|(_, c)| *c)
}

// ─── text scanning ───────────────────────────────────────────────────────────

#[test]
fn lines_match_str_lines() {
    for s in ["a\nb", "a\r\nb\n", "", "\n\nx", "one\r"] {
        let expect: Vec<String> = s.lines().map(|l| l.to_string()).collect();
        assert_eq!(strs(&lines(&cs(s))), expect, "input {:?}", s);
    }
}

#[test]
fn tokens_and_trim_match_str() {
    for s in ["  a  b\tc ", "", "   ", "x", "\u{3000}wide\u{3000}space"] {
        let expect: Vec<String> = s.split_whitespace().map(|l| l.to_string()).collect();
        assert_eq!(strs(&split_whitespace(&cs(s))), expect, "input {:?}", s);
        let t: String = trim(&cs(s)).iter().collect();
        assert_eq!(t, s.trim());
    }
}

#[test]
fn substring_tests() {
    assert!(contains_seq(&cs("a [unknown] b"), &cs("[unknown]")));
    assert!(!contains_seq(&cs("ab"), &cs("abc")));
    assert!(contains_seq(&cs("x"), &cs("")));
    assert!(starts_with(&cs("rustscope::x"), &cs("rustscope::")));
    assert!(!starts_with(&cs("rust"), &cs("rustscope")));
}

#[test]
fn parse_u64_matches_str_parse() {
    for s in ["0", "42", "+42", "", "+", "-1", "12a", "18446744073709551615", "18446744073709551616", "007"] {
        assert_eq!(parse_u64(&cs(s)), s.parse::<u64>().ok(), "input {:?}", s);
    }
}

#[test]
fn chars_round_trip() {
    assert_eq!(chars_of("héllo"), cs("héllo"));
    assert_eq!(string_of(&cs("héllo")), "héllo");
}

// ─── symbol names ────────────────────────────────────────────────────────────

#[test]
fn double_colon_split_matches_str_split() {
    for s in ["::a::b::::c", "", "a", "a:b::c:", "::"] {
        let expect: Vec<String> = s.split("::").map(|p| p.to_string()).collect();
        assert_eq!(strs(&split_double_colon(&cs(s))), expect, "input {:?}", s);
    }
}

#[test]
fn sampler_derives_crate_and_module() {
    assert_eq!(sampler::derive_crate("<app::db::query>"), "app");
    assert_eq!(sampler::derive_crate("app::db::query 0x1234"), "app");
    assert_eq!(sampler::derive_crate(""), "");
    assert_eq!(sampler::derive_module("<app::db::query>"), "app::db");
    assert_eq!(sampler::derive_module("main"), "main");
    assert_eq!(sampler::derive_module("::"), "unknown");
    assert_eq!(sampler::derive_module(""), "unknown");
}

#[test]
fn cli_derives_crate_and_module() {
    assert_eq!(cli::derive_crate("f", "app::db"), "app");
    assert_eq!(cli::derive_crate("lib::f", "unknown"), "lib");
    assert_eq!(cli::derive_module("f", "app::db"), "app::db");
    assert_eq!(cli::derive_module("a::b::c", "unknown"), "a::b");
    assert_eq!(cli::derive_module("", "unknown"), "unknown");
}

#[test]
fn unknown_symbols_are_recognised() {
    assert!(is_unknown_symbol("  "));
    assert!(is_unknown_symbol("UnKnown"));
    assert!(is_unknown_symbol("0x12 [unknown]"));
    assert!(is_unknown_symbol("???"));
    assert!(!is_unknown_symbol("main"));
}

// ─── sampler output ──────────────────────────────────────────────────────────

#[test]
fn perf_script_counts_top_frames() {
    // each block counts once for its first kept line; lines that start with
    // a digit are skipped, and a line's second token names it
    let out = "solo\n\tabc f\n\nprog 123 1.0: cycles:\n\t55 leaf_fn (/bin/p)\n\tabc caller (/bin/p)\n\nprog 123 2.0: cycles:\n";
    let rows = parse_perf_script(out);
    assert_eq!(rows.len(), 2);
    assert_eq!(lookup(&rows, "solo"), Some(1));
    assert_eq!(lookup(&rows, "123"), Some(2));
    assert!(parse_perf_script("").is_empty());
}

#[test]
fn sample_chunk_reads_top_of_stack() {
    let out = "Analysis\nTotal number of samples in all threads: 250\nCall graph:\n    10 main\nSort by top of stack, same collapsed (when >= 5):\n        compute  (in app)        120\n        42 compute\n        8 idle wait\n\n        99 ignored\n";
    let c = parse_sample_chunk(out);
    assert_eq!(c.total_samples, 250);
    assert_eq!(lookup(&c.counts, "compute"), Some(42));
    assert_eq!(lookup(&c.counts, "idle wait"), Some(8));
    assert_eq!(c.counts.len(), 2);
}

#[test]
fn sample_chunk_falls_back_to_all_count_lines() {
    let c = parse_sample_chunk("3 a\n4 b c\nx y\n5 a\n");
    assert_eq!(c.total_samples, 0);
    assert_eq!(lookup(&c.counts, "a"), Some(8));
    assert_eq!(lookup(&c.counts, "b c"), Some(4));
}

#[test]
fn symbol_stats_split_known_and_unknown() {
    let mut rows: Vec<(String, u64)> = Vec::new();
    bump(&mut rows, &"main".to_string(), 7);
    bump(&mut rows, &"[unknown]".to_string(), 2);
    bump(&mut rows, &"main".to_string(), 1);
    assert_eq!(rows, vec![("main".to_string(), 8), ("[unknown]".to_string(), 2)]);
    let s = symbol_stats(&rows, 12);
    assert_eq!(s.symbolized_samples, 10);
    assert_eq!(s.unknown_symbols, 2);
    assert_eq!(s.dropped_samples, 2);
    assert_eq!(symbol_stats(&rows, 3).dropped_samples, 0);
    assert_eq!(platform_backend_name(true, false), "macos-sample");
    assert_eq!(platform_backend_name(false, true), "linux-perf");
    assert_eq!(platform_backend_name(false, false), "unsupported");
}

// ─── command line helpers ────────────────────────────────────────────────────

#[test]
fn cli_helpers() {
    assert_eq!(yes_no(true), "yes");
    assert_eq!(yes_no(false), "no");
    assert_eq!(session_window(1000, 4500), (3, 3_500_000_000));
    assert_eq!(session_window(1000, 1200), (1, 200_000_000));
    assert_eq!(session_window(5000, 1000), (1, 0));
    assert_eq!(peak(&vec![3, 9, 2]), 9);
    assert_eq!(peak(&vec![]), 0);
    let c = CpuCollector::new(7);
    assert_eq!((c.pid, c.last_utime, c.last_sample_time), (7, 0, None));
    assert_eq!(MemoryCollector::new(8).pid, 8);
    assert_eq!(SyscallCollector::new(9).last_syscall_count, 0);
    assert_eq!(ThreadFdCollector::new(10).pid, 10);
}

#[test]
fn fail_on_levels() {
    let mut s = DiffSummary::default();
    s.regressions_minor = 1;
    assert!(should_fail(&s, "any"));
    assert!(should_fail(&s, "minor"));
    assert!(!should_fail(&s, "moderate"));
    assert!(!should_fail(&s, "critical"));
    s.regressions_moderate = 1;
    assert!(should_fail(&s, "moderate"));
    assert!(!should_fail(&s, "whatever"));
    s.regressions_critical = 1;
    assert!(should_fail(&s, "whatever"));
}

#[test]
fn rollups_group_by_key() {
    let keys = vec!["app".to_string(), "std".to_string(), "app".to_string()];
    let calls = vec![3, 4, 5];
    let g = group_rollups(&keys, &calls);
    assert_eq!(g.names, vec!["app".to_string(), "std".to_string()]);
    assert_eq!(g.calls, vec![8, 4]);
    assert_eq!(g.function_count, vec![2, 1]);
    assert_eq!(g.group_of, vec![0, 1, 0]);
}

// ─── sampling profiler ───────────────────────────────────────────────────────

#[test]
fn sampling_config_defaults() {
    let c = SamplingConfig::default();
    assert_eq!(c.frequency_hz, 100);
    assert_eq!(c.max_stack_depth, 24);
    assert!(!c.include_idle);
    assert_eq!(c.blocklist_prefixes, vec!["libc", "libgcc", "pthread", "std::sys", "core::panicking"]);
    let r = SamplingReportConfig::of(&c);
    assert_eq!((r.frequency_hz, r.max_stack_depth), (100, 24));
    assert_eq!(interval_us(100), 10_000);
    assert_eq!(interval_us(0), 1_000_000);
    assert_eq!(collector_sleep_us(10_000), 5_000);
    assert_eq!(collector_sleep_us(1_000), 1_000);
}

#[test]
fn only_one_sampler_runs() {
    let mut p = SamplingProfiler::new();
    assert!(p.start().is_ok());
    assert_eq!(p.start(), Err("A sampling profiler is already running".to_string()));
    p.stop();
    assert!(p.start().is_ok());
}

#[test]
fn ring_buffer_is_bounded_fifo() {
    let mut r: RingBuffer<u32> = RingBuffer::new();
    for i in 0..(RING_CAPACITY as u32) {
        assert!(r.push(i));
    }
    assert!(!r.push(9999));
    assert_eq!(r.drain(), Some(0));
    assert_eq!(r.drain(), Some(1));
    assert!(r.push(7));
    r.reset();
    assert_eq!(r.drain(), None);
}

#[test]
fn frames_are_filtered_and_cut() {
    let bl = vec!["libc".to_string()];
    assert!(frame_blocked("libc_start", &bl));
    assert!(frame_blocked("rustscope::sampling::tick", &bl));
    assert!(frame_blocked("backtrace::capture", &bl));
    assert!(frame_blocked("my_signal_handler", &bl));
    assert!(frame_blocked("__rust_begin", &bl));
    assert!(!frame_blocked("app::work", &bl));
    let frames = vec![
        vec![sym(Some("rustscope::x"), 1), sym(Some("app::leaf"), 2)],
        vec![sym(None, 3)],
        vec![sym(Some("app::main"), 4)],
    ];
    let kept = select_frames(&frames, 2, &bl);
    assert_eq!(kept.iter().map(|f| f.name.as_str()).collect::<Vec<_>>(), vec!["app::leaf", "<unknown>"]);
    assert_eq!(kept[0].line, Some(2));
    assert_eq!(kept[0].file.as_deref(), Some("f.rs"));
}

#[test]
fn flat_counts_rank_leaf_symbols() {
    let samples = vec![
        vec![frame("a"), frame("main")],
        vec![frame("b"), frame("a"), frame("main")],
        vec![frame("a"), frame("main")],
        vec![],
    ];
    let f = flat_counts(&samples);
    assert_eq!(f.len(), 2);
    assert_eq!((f[0].name.as_str(), f[0].self_samples, f[0].total_samples), ("a", 2, 3));
    assert_eq!((f[1].name.as_str(), f[1].self_samples, f[1].total_samples), ("b", 1, 1));
}

#[test]
fn sample_tree_counts_paths() {
    let samples = vec![
        vec![frame("a"), frame("main")],
        vec![frame("b"), frame("a"), frame("main")],
        vec![frame("c"), frame("main")],
        vec![frame("x")],
    ];
    let arena = build_sample_tree(&samples);
    let roots = tree_roots(&arena);
    assert_eq!(roots.len(), 2);
    assert_eq!((roots[0].name.as_str(), roots[0].total_samples, roots[0].self_samples), ("main", 3, 0));
    assert_eq!((roots[1].name.as_str(), roots[1].total_samples, roots[1].self_samples), ("x", 1, 1));
    let kids: Vec<(&str, u64)> = roots[0].children.iter().map(|c| (c.name.as_str(), c.total_samples)).collect();
    assert_eq!(kids, vec![("a", 2), ("c", 1)]);
    assert_eq!(roots[0].children[0].children[0].name, "b");
    assert_eq!(node_at(&arena, 0).name, "main");
}

// ─── macro arguments ─────────────────────────────────────────────────────────

#[test]
fn macro_arguments_are_read_by_key() {
    assert_eq!(extract_str_arg("name = \"counter_fn\"", "name"), Some("counter_fn".to_string()));
    assert_eq!(extract_str_arg("budget_ns = 10", "name"), None);
    assert_eq!(extract_u64_arg("budget_ns = 5000, name = \"f\"", "budget_ns"), Some(5000));
    assert_eq!(extract_u64_arg("budget_ns = x", "budget_ns"), None);
    assert_eq!(extract_u64_arg("budget_ns =   77", "budget_ns"), Some(77));
}

// ─── live controls and session decisions ─────────────────────────────────────

#[test]
fn live_controls_are_read_from_typed_lines() {
    assert_eq!(parse_control("q"), Some(LiveControl::Quit));
    assert_eq!(parse_control("  quit \n"), Some(LiveControl::Quit));
    assert_eq!(parse_control("compact"), Some(LiveControl::ToggleCompact));
    assert_eq!(parse_control("s"), Some(LiveControl::Slow));
    assert_eq!(parse_control("\tfast"), Some(LiveControl::Fast));
    assert_eq!(parse_control("qq"), None);
    assert_eq!(parse_control(""), None);
}

#[test]
fn session_loop_decisions() {
    assert!(session_over(true, 0, 0));
    assert!(!session_over(false, 0, u64::MAX));
    assert!(!session_over(false, 5, 4_999_999_999));
    assert!(session_over(false, 5, 5_000_000_000));
    assert!(!session_over(false, u64::MAX, u64::MAX));
    assert!(!should_refresh(7, 7, false));
    assert!(should_refresh(7, 7, true));
    assert!(should_refresh(u64::MAX, 0, false));
    assert_eq!(sampling_window_secs(0, true), 3600);
    assert_eq!(sampling_window_secs(0, false), 30);
    assert_eq!(sampling_window_secs(12, true), 12);
}

#[test]
fn cores_are_counted_in_cpuinfo() {
    let text = "processor\t: 0\nvendor_id\t: x\n\nprocessor\t: 1\nmodel name : processor y\nprocessor\t: 2";
    assert_eq!(cores_in_cpuinfo(text), 3);
    assert_eq!(cores_in_cpuinfo(""), 0);
}

#[test]
fn whitespace_agrees_with_std_on_every_char_below_u3001() {
    for x in 0u32..=0x3001 {
        if let Some(ch) = char::from_u32(x) {
            let s = format!("{ch}x{ch}");
            let t: String = trim(&cs(&s)).iter().collect();
            assert_eq!(t, s.trim(), "char U+{:04X}", x);
        }
    }
}
