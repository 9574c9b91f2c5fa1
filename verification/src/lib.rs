//! Verified core of a filesystem mirroring pipeline.
//!
//! The library captures a metadata snapshot of a directory tree, encodes it
//! to a deterministic binary form, computes a directional change-set between
//! two snapshots, and partitions the change-set into bounded batches for an
//! external synchronization tool. Filesystem and subprocess plumbing lives
//! outside the library; everything here is pure logic with contracts.

pub mod args;
pub mod codec;
pub mod diff;
pub mod dispatch;
pub mod entry;
pub mod walker;

pub use args::ArgError;
pub use args::PathExistsValueParser;
pub use args::default_threads;
pub use args::threads;
pub use codec::FormatError;
pub use codec::decode;
pub use codec::decode_entry;
pub use codec::encode;
pub use codec::encode_entry;
pub use codec::kind_of_tag;
pub use codec::kind_tag;
pub use codec::decode_changes;
pub use codec::encode_change;
pub use codec::encode_changes;
pub use codec::lemma_change_set_round_trip;
pub use codec::lemma_snapshot_round_trip;
pub use codec::push_bytes;
pub use diff::diff;
pub use diff::lemma_diff_self_empty;
pub use diff::lemma_sync_delete_disjoint;
pub use diff::meta_eq;
pub use dispatch::DeleteAction;
pub use dispatch::chunk_changes;
pub use dispatch::deletion_action;
pub use dispatch::lemma_chunks_concat;
pub use dispatch::lemma_chunks_count;
pub use dispatch::lemma_deletion_isolation;
pub use dispatch::part_file_bytes;
pub use dispatch::resolve_chunk_size;
pub use dispatch::to_delete;
pub use dispatch::to_sync;
pub use entry::ChangedFsEntries;
pub use entry::ChangedFsEntry;
pub use entry::ChangedFsEntryView;
pub use entry::FsEntries;
pub use entry::FsEntry;
pub use entry::FsEntryKind;
pub use entry::FsEntryView;
pub use entry::bytes_eq;
pub use entry::copy_bytes;
pub use entry::unique_names;
pub use walker::FsMetadata;
pub use walker::FsTreeNode;
pub use walker::keep_child;
pub use walker::make_entry;
pub use walker::normalize_path;
pub use walker::lemma_pruned_subtree_absent;
pub use walker::lemma_readable_sibling_present;
pub use walker::lemma_unreadable_entry_absent;
pub use walker::walk_dir;
