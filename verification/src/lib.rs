//! Function-level profiler core: the data structures and rules behind the
//! per-call stack, timeline, outlier budgets, session metadata, lock
//! accounting, pprof encoding and session diffing.

pub mod stack;
pub mod text;
pub mod timeline;
pub mod locks;
pub mod metadata;
pub mod pprof;
pub mod memory;
pub mod outliers;
pub mod diff;
pub mod calltree;
pub mod records;
pub mod guard;
pub mod order;
pub mod thread_profile;
pub mod export;
pub mod async_profile;
pub mod scan;
pub mod sampler;
pub mod cli;
pub mod sampling;
pub mod schema;
pub mod bench;
pub mod macro_args;
