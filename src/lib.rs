//! Tick-synchronised scenario runs against a shared block world.
//!
//! The library holds the deterministic core of a run: the scenario data
//! model, the mapping from test-local to world coordinates, the backend
//! command text, the merged timeline of many scenarios, the plan of a whole
//! run, the judging of assertions, the per-scenario tally of outcomes and the
//! decisions of connection set-up. A driver carries out the plan against the
//! backend and feeds the answers back.

mod commands;
mod judge;
mod model;
mod offset;
mod probe;
mod schedule;
mod session;
mod tally;
mod text;
mod timeline;

pub use commands::{
    clear_command, command_with_slash, fill_command, freeze_command, remove_command,
    setblock_command, step_command, unfreeze_command,
};
pub use judge::{
    block_matches, judge_blocks, judge_state, matches_folded, next_block_query, property_probe, JudgeError,
    Mismatch, Verdict,
};
pub use model::{
    ActionType, BlockCheck, BlockPlacement, Pos, TestResult, TestSpec, TimelineEntry, WorldPos,
};
pub use offset::{apply_offset, lemma_translate_reversible};
pub use probe::{judge_due, lemma_occurrence_in_range, next_block_for, probe_for, Probe};
pub use schedule::{
    lemma_cleanup_twice, lemma_one_step_per_tick, plan_run, Op, ASSERT_SETTLE_MS,
    CLEAR_SETTLE_MS, FREEZE_SETTLE_MS, PLACE_PACE_MS, STEP_SETTLE_MS,
};
pub use session::{
    Readiness, SetupError, GAME_POLLS, HANDLE_POLLS, POLL_INTERVAL_MS, SYNC_GRACE_MS,
};
pub use tally::{lemma_counts_isolated, lemma_failure_stays_in_its_test, Tally};
pub use text::{chars_of, contains_chars, push_decimal, strip_separators};
pub use timeline::{
    lemma_build_deterministic, lemma_due_in_range, lemma_due_order, lemma_entry_fires_at_each_tick,
    Due, GlobalTimeline,
};
