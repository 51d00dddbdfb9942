//! `subms` - a small perf harness. Records timed samples per stage and
//! renders a stable JSON shape.
//!
//! ```text
//! recipe -> SubMsPerfHarness -> SubMsBenchSummary -> { print, assert, JSON }
//! ```
//!
//! [`summarize`] turns a harness into a typed [`SubMsBenchSummary`];
//! [`print_summary`], [`assert_p99_under`] and [`summary_to_json`] present and
//! check that summary without recomputing any statistic. Presenters write to a
//! byte buffer; the caller hands the bytes to whatever sink it owns.

pub mod bench;
pub mod bench_config;
pub mod bench_loops;
pub mod diff;
pub mod env;
pub mod feature;
pub mod growth;
pub mod harness;
pub mod json;
pub mod json_round_trip;
pub mod json_shape;
pub mod keymap;
pub mod params;
pub mod placement;
pub mod recipe;
pub mod render;
pub mod stats;
pub mod strmap;
pub mod summary;
pub mod text;
pub mod timer;
pub mod units;
pub mod util;

pub use bench::{
    SubMsAssertionTarget, SubMsBenchAssertion, assert_p99_under, downsample, run_bench, run_sweep,
    summarize, summarize_lean, summarize_skipping, summarize_sweep, summarize_windowed,
};
pub use bench_config::{SubMsBenchConfig, SubMsCpuPin};
pub use bench_loops::{bench_indexed_op, bench_keyed_op, bench_templated_op};
pub use diff::{SubMsBenchDelta, SubMsMetricDelta, SubMsStageDelta, diff_deltas};
pub use placement::{stat_core_of, status_allowed_cores};
pub use env::{SubMsAppEnv, SubMsAppRegion, env_bool, env_i64, env_or, env_u64};
pub use feature::{
    SubMsFeatureCategory, SubMsFeatureManifest, SubMsP99Source, SubMsStageClass, classify_feature,
    roll_up_stages,
};
pub use growth::SubMsGrowthClass;
pub use harness::{
    HARNESS_VERSION, ObservationCtx, SubMsObserver, SubMsPacedStage, SubMsPerfHarness, SubMsStage,
    SubMsStageKind, iso8601_from_secs, parse_kv_lines,
};
pub use json::{Json, parse_json};
pub use keymap::KeyMap;
pub use params::{parse_bool, parse_string, parse_u64, parse_usize};
pub use recipe::{SubMsBenchParams, SubMsRecipe, benchmark, harness_for};
pub use render::{append_summary_json, print_summary, print_sweep, summary_to_json, sweep_to_json};
pub use strmap::StrMap;
pub use summary::{SubMsBenchSummary, SubMsBenchSweep, SubMsStageSummary};
pub use timer::{SubMsTick, SubMsTimer, SubMsTimerCheckpoint};
pub use units::format_ns;
pub use util::SubMsLcg;
