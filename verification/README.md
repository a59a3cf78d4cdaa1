# rustscope

A function-level profiler for Rust programs, with a command-line tool that
profiles other processes. The data structures and rules of the profiler are
a library verified with Verus; the parts that need the operating system,
threads, floating point or other crates' traits are ordinary Rust around it.

## Layout

- `src/` — the verified library. Each module states its behaviour in
  `requires`/`ensures` contracts over mathematical models, and its laws as
  public proof functions:
  - `stack`, `calltree`, `guard`, `records`, `memory`, `bench`: the per-thread
    call stack, self and inclusive time, the per-function records and their
    summaries, allocation counters, benchmark accumulation;
  - `timeline`, `outliers`, `metadata`, `locks`, `thread_profile`,
    `async_profile`: the per-call event log, latency budgets, session
    metadata, lock accounting, the per-thread breakdown and async spans;
  - `pprof`, `export`, `text`: protobuf/pprof encoding, CRC-32 and GZIP
    framing, collapsed stacks, speedscope frames, CSV escaping;
  - `diff`, `order`: pairing two sessions, classifying and counting changes,
    stable descending orders;
  - `sampling`, `sampler`, `scan`, `cli`, `schema`, `macro_args`: the
    sampling profiler's queue, frame filtering, flat counts and sample tree;
    parsing of `perf script` and macOS `sample` output; text scanning; the
    command-line tool's decisions; attribute-argument reading.
- `app/` — the `rustscope` command and the in-process runtime: global state
  behind locks, the tracking allocator, hardware counters, the SIGPROF
  sampler, the tracing layer, JSON output, percentages and statistics, and
  the attribute expansions.
- `tests/` — tests of the library on concrete values.
