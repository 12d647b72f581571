//! The configuration data model: problem inputs, programs, engine settings,
//! resource limits, corpus-mixing ratios and output normalization flags.
//!
//! Textual fields are byte strings, so that every rule that reads them can be
//! specified over `Seq<u8>`. Ratios are in thousandths, so that budgets are
//! exact integer arithmetic.

use vstd::prelude::*;

verus! {

/// One problem input field: a kind tag (only `integer` is supported), an
/// optional textual range expression, and optional explicit bounds.
pub struct InputSpec {
    pub kind: Vec<u8>,
    pub range: Option<Vec<u8>>,
    pub min: Option<i64>,
    pub max: Option<i64>,
}

/// An executable under test: its argv, optional display name, optional
/// container image, optional per-program timeout, and mount strings of the
/// form `host:container[:mode]`.
pub struct Program {
    pub name: Option<Vec<u8>>,
    pub cmd: Vec<Vec<u8>>,
    pub image: Option<Vec<u8>>,
    pub timeout_ms: Option<u64>,
    pub mounts: Vec<Vec<u8>>,
}

/// Optional per-process caps; an absent cap is not enforced.
pub struct Limits {
    pub cpu_seconds: Option<u64>,
    pub memory_mb: Option<u64>,
    pub file_size_kb: Option<u64>,
    pub nofile: Option<u64>,
    pub nproc: Option<u64>,
}

/// The problem section: named input fields, in configuration order.
pub struct Problem {
    pub inputs: Vec<(Vec<u8>, InputSpec)>,
}

/// Engine settings: corpus size, seed, worker count, default timeout and the
/// early-termination flag.
pub struct Engine {
    pub cases: usize,
    pub seed: u64,
    pub workers: usize,
    pub timeout_ms: u64,
    pub stop_on_first_fail: bool,
}

/// Corpus-mixing settings. The two ratios are thousandths of the corpus size
/// (a ratio of 1 is written 1000), so the edge and partition budgets are
/// computed exactly.
pub struct Pbt {
    pub enabled: bool,
    pub edge_case_ratio_milli: u32,
    pub partition_ratio_milli: u32,
    pub max_cartesian_cases: usize,
}

/// Output canonicalization flags.
pub struct Normalize {
    pub trim_trailing_ws: bool,
    pub ignore_final_newline: bool,
}

/// The whole parsed configuration.
pub struct Config {
    pub version: Option<u32>,
    pub problem: Problem,
    pub origin: Program,
    pub candidate: Vec<Program>,
    pub engine: Engine,
    pub limits: Limits,
    pub pbt: Pbt,
    pub normalize: Normalize,
}

/// Default number of generated cases when the configuration does not set one.
pub fn default_cases() -> (r: usize)
    ensures
        r == 1000,
{
    1000
}

/// Default seed for the case generator.
pub fn default_seed() -> (r: u64)
    ensures
        r == 42,
{
    42
}

/// Default per-program wall-clock timeout in milliseconds.
pub fn default_timeout_ms() -> (r: u64)
    ensures
        r == 1000,
{
    1000
}

/// By default a candidate's later failures are suppressed after its first.
pub fn default_stop_on_first_fail() -> (r: bool)
    ensures
        r == true,
{
    true
}

/// Default for the boolean flags that are on unless switched off.
pub fn default_true() -> (r: bool)
    ensures
        r == true,
{
    true
}

/// Default cap on the size of the enumerated edge-value Cartesian product.
pub fn default_max_cartesian_cases() -> (r: usize)
    ensures
        r == 128,
{
    128
}

/// Default edge-case ratio, in thousandths.
pub const DEFAULT_EDGE_CASE_RATIO_MILLI: u32 = 200;

/// Default partition ratio, in thousandths.
pub const DEFAULT_PARTITION_RATIO_MILLI: u32 = 200;

/// Worker count used when the host's parallelism is not known.
pub const FALLBACK_WORKERS: usize = 4;

impl Default for Engine {
    /// The engine defaults; the worker count falls back to a constant here,
    /// and the embedding binary may override it with the host's parallelism.
    fn default() -> (r: Self)
        ensures
            r.cases == 1000,
            r.seed == 42,
            r.workers == FALLBACK_WORKERS,
            r.timeout_ms == 1000,
            r.stop_on_first_fail == true,
    {
        Engine {
            cases: default_cases(),
            seed: default_seed(),
            workers: FALLBACK_WORKERS,
            timeout_ms: default_timeout_ms(),
            stop_on_first_fail: default_stop_on_first_fail(),
        }
    }
}

impl Default for Pbt {
    fn default() -> (r: Self)
        ensures
            r.enabled == true,
            r.edge_case_ratio_milli == DEFAULT_EDGE_CASE_RATIO_MILLI,
            r.partition_ratio_milli == DEFAULT_PARTITION_RATIO_MILLI,
            r.max_cartesian_cases == 128,
    {
        Pbt {
            enabled: default_true(),
            edge_case_ratio_milli: DEFAULT_EDGE_CASE_RATIO_MILLI,
            partition_ratio_milli: DEFAULT_PARTITION_RATIO_MILLI,
            max_cartesian_cases: default_max_cartesian_cases(),
        }
    }
}

impl Default for Normalize {
    fn default() -> (r: Self)
        ensures
            r.trim_trailing_ws == true,
            r.ignore_final_newline == true,
    {
        Normalize { trim_trailing_ws: default_true(), ignore_final_newline: default_true() }
    }
}

impl Default for Limits {
    fn default() -> (r: Self)
        ensures
            r.cpu_seconds is None,
            r.memory_mb is None,
            r.file_size_kb is None,
            r.nofile is None,
            r.nproc is None,
    {
        Limits {
            cpu_seconds: None,
            memory_mb: None,
            file_size_kb: None,
            nofile: None,
            nproc: None,
        }
    }
}

} // verus!
