//! Plain report records shared by the library and the command-line tool.

use vstd::prelude::*;
use crate::scan::{lines, lines_of, starts_with};
use crate::text::chars_of;

verus! {

/// Static information about the machine and build.
pub struct HostInfo {
    pub os: String,
    pub arch: String,
    pub cpu_logical_cores: u32,
    /// Rust toolchain version string.
    pub rustc_version: String,
    /// Build profile ("debug" or "release").
    pub build_profile: String,
}

/// Identity of a command-line profiling run.
pub struct Meta {
    pub project: String,
    pub duration_sec: u64,
    pub start_ts: u64,
    pub end_ts: u64,
    pub rustscope_version: String,
    pub target_binary: String,
    pub host_os: String,
    pub cpu_cores: u32,
}

/// Allocation counts by size class.
#[derive(Clone, Copy, PartialEq, Eq, Structural, Debug)]
pub struct BySize {
    pub range_0_64b: u64,
    pub range_65_512b: u64,
    pub range_513b_4kb: u64,
    pub range_4kb_64kb: u64,
    pub range_gt_64kb: u64,
}

/// Allocation statistics of a run.
#[derive(Clone, Copy, PartialEq, Eq, Structural, Debug)]
pub struct Allocations {
    pub by_size: BySize,
}

/// A notable memory or CPU event of a run.
pub struct MemoryEvent {
    pub ts: u64,
    /// "alloc", "dealloc", "spike" or "cpu_spike".
    pub event_type: String,
    pub size_bytes: u64,
    pub location: String,
}

/// The version of the session layout written by this library.
pub const SCHEMA_VERSION: u32 = 3;

/// Which optional sections a collected session carries.
#[derive(Clone, Copy, PartialEq, Eq, Structural, Debug)]
pub struct SessionSections {
    pub schema_version: u32,
    /// The session metadata.
    pub session_meta: bool,
    /// The outlier and budget summary.
    pub outlier_summary: bool,
    /// The timeline summary.
    pub timeline_summary: bool,
    /// The per-thread report.
    pub thread_report: bool,
    /// The async span records.
    pub async_spans: bool,
}

/// Decides the optional sections of a session from what the features hold:
/// metadata only when it has content, the outlier summary only when there
/// are outliers or budget violations, the timeline summary and the thread
/// report whenever their feature is on, and async spans only when some
/// were recorded.
pub fn session_sections(
    meta_empty: bool,
    outliers: usize,
    violations: usize,
    timeline_on: bool,
    threads_on: bool,
    async_records: usize,
) -> (s: SessionSections)
    ensures
        s.schema_version == SCHEMA_VERSION,
        s.session_meta == !meta_empty,
        s.outlier_summary == (outliers > 0 || violations > 0),
        s.timeline_summary == timeline_on,
        s.thread_report == threads_on,
        s.async_spans == (async_records > 0),
{
    SessionSections {
        schema_version: SCHEMA_VERSION,
        session_meta: !meta_empty,
        outlier_summary: outliers > 0 || violations > 0,
        timeline_summary: timeline_on,
        thread_report: threads_on,
        async_spans: async_records > 0,
    }
}

/// How many lines of `lines` start with `processor`.
pub open spec fn processor_lines(lines: Seq<Seq<char>>) -> nat
    decreases lines.len(),
{
    if lines.len() == 0 {
        0
    } else {
        processor_lines(lines.drop_last()) + if "processor"@.is_prefix_of(lines.last()) {
            1nat
        } else {
            0nat
        }
    }
}

/// The logical cores listed in the text of `/proc/cpuinfo`: the lines that
/// start with `processor`, counted modulo 2^32.
pub fn cores_in_cpuinfo(content: &str) -> (r: u32)
    ensures
        r == processor_lines(lines_of(content@)) % 0x1_0000_0000,
{
    let ls = lines(&chars_of(content));
    let ghost lv = ls@.map_values(|l: Vec<char>| l@);
    let key = chars_of("processor");
    let mut n: u32 = 0;
    let mut i: usize = 0;
    while i < ls.len()
        invariant
            i <= ls@.len(),
            lv == ls@.map_values(|l: Vec<char>| l@),
            key@ == "processor"@,
            n == processor_lines(lv.take(i as int)) % 0x1_0000_0000,
        decreases ls@.len() - i,
    {
        proof {
            assert(lv.take(i + 1).drop_last() =~= lv.take(i as int));
            assert(lv.take(i + 1).last() == ls@[i as int]@);
        }
        if starts_with(&ls[i], &key) {
            n = n.wrapping_add(1);
        }
        i = i + 1;
    }
    assert(lv.take(ls@.len() as int) =~= lv);
    n
}

} // verus!
