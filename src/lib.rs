use vstd::prelude::*;

pub mod line_range;
pub mod str_map;
pub mod text;
pub mod authorship_log;
pub mod working_log;
pub mod error;
pub mod diff;
pub mod upgrade;
pub mod consolidate;
pub mod short_hash;
pub mod share;
pub mod show_prompt;
pub mod ci;
pub mod rewrite;
pub mod sync_prompts;
pub mod serialization;
pub mod ownership;
pub mod line_stats;
pub mod round_trip;
pub mod checkpoint;
pub mod prompt_utils;
pub mod tracker;
pub mod line_attribution;
pub mod commit_model;
pub mod virtual_attribution;

verus! {

} // verus!
