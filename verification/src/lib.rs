//! A local persistence engine for document synchronization: an append-only
//! update log, one compacted snapshot per document written under an
//! optimistic-concurrency rule, and a per-document logical clock used to
//! discover what changed since a checkpoint.

mod laws;
mod order;
mod records;
mod storage;

pub use order::lex_lt;
pub use records::{clock_models, record_models, time_models, update_models, ClockModel, DocClock,
    DocRecord, DocUpdate, RecordModel, StorageError, UpdateModel};
pub use laws::{lemma_chronological_push_keeps_order, lemma_retire_idempotent};
pub use storage::{clock_for, clocks_after, clocks_sorted, has_clock, has_snapshot, has_update,
    lemma_clocks_after_sorted, log_keys_unique, purged, retired, snapshot_for, snaps_unique,
    SqliteDocStorage, StorageModel, times_nondecreasing, updates_for};
