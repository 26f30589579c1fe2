//! Routes a stream of delimited records into per-key output files, optionally
//! splitting each key's output into successive numbered files.
//!
//! The library is the decision engine: it keeps one [`Shard`] per key, decides for
//! every record which numbered file of its key receives it, when a file is opened
//! and when it is complete, and encodes the bytes that go into the file. The
//! caller performs the file operations that each [`ShardStep`] asks for.
//!
//! - `split`: the split policy and its per-record decision.
//! - `shard`: the state machine of one key's files.
//! - `registry`: the shards of all keys, the header, and the encoding of records.
//! - `laws`: what holds over whole runs of records.
mod encode;
mod error;
mod laws;
mod registry;
mod shard;
mod split;

pub use encode::{csv_record, fields_view};
pub use error::ShardError;
pub use laws::{
    completed_files, finished_files, first_files, lemma_bytes_split,
    lemma_each_file_completed_once, lemma_header_first, lemma_keys_isolated,
    lemma_no_split_one_file, lemma_record_placement, lemma_rows_split, lemma_run_extends, lemma_run_wf,
    lemma_seen_stays, lens_of, open_bytes, opened_files, placement_at, registry_run, shard_run,
};
pub use registry::{
    all_closed, empty_registry, file_bytes, files_view, key_seen, lemma_step_wf, open_abandoned,
    open_files, registry_step, registry_wf, sequence_exhausted, shard_of, RegistryState,
    ShardRegistry,
};
pub use shard::{
    fresh_shard, shard_state_wf, shard_step, Placement, Shard, ShardState, ShardStep,
};
pub use split::{
    empty_usage, rotation_due, saturate, should_rotate, usage_after, FileSplitting, FileUsage,
};
