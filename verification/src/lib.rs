//! Offline maintenance toolkit for a blockchain node's durable storage.
//!
//! The library verifies the logic of the toolkit: a reachability copy engine
//! over a content-addressed Merkle trie store, a chain indexer, an era weight
//! cache, a finality-signature weight-reduction engine, a purge orchestrator,
//! and the record-copy step of block-slice extraction. Disk access, command
//! lines and network transfer are left to the thin shell around the library.

mod block;
mod copy;
mod db;
mod digest;
mod era;
mod indices;
mod maps;
mod purge;
mod records;
mod signatures;
mod summary;
mod trie;
mod unpack;
mod weights;

pub use block::{clone_block, clone_header, clone_weight_map, version_lt, Block, BlockHeader, BlockV, HeaderV, ProtocolVersion};
pub use copy::{closure, copy_state_root, lemma_copy_idempotent, lemma_copy_resumable, lemma_needed_into_empty, needed, needed_set, reachable, store_closed, stores_agree, CopyError};
pub use db::{
    ApprovalsHashesDatabase, FinalizedApprovalsDatabase, LegacyBlockBodyDatabase,
    LegacyBlockHeaderDatabase, LegacyBlockMetadataDatabase, LegacyDeployMetadataDatabase,
    TransactionsDatabase, TransferDatabase, VersionedApprovalsHashesDatabase,
    VersionedBlockBodyDatabase, VersionedBlockHeaderDatabase, VersionedBlockMetadataDatabase,
    VersionedExecutionResultsDatabase, VersionedFinalizedApprovalsDatabase,
    VersionedTransfersDatabase,
};
pub use digest::{Digest, DIGEST_LENGTH};
pub use era::{header_store_wf, resolve_weights, CachedEra, EraWeights, ResolveFailure};
pub use indices::{before_upgrade_height, dup_at, has_switch_for, header_views, initialize_indices, switch_block_for, Error, HeightEntry, HeightEntryV, Indices};
pub use maps::{DigestMap, DigestSet, KvMap};
pub use purge::{clone_signatures, purge_fold, purge_one, purge_signatures_for_blocks, sig_store_wf};
pub use records::{remove_block, transfer_block_info, tx_scan, ExtractError, RecordStore, RemoveError};
pub use signatures::{greedy_removals, is_sorted_signers, lemma_sorted_signers_unique, signed_weight, signer_prio, spec_sorted_signers, strip_outcome, strip_signatures, BlockSignatures, SigRecordV};
pub use summary::{chunk_count_after_partition, CHUNK_SIZE_BYTES};
pub use trie::{child_digests, clone_node, NodeV, Pointer, PointerKind, PointerV, TrieNode, BRANCH_WIDTH};
pub use unpack::{unpack, Input, UnpackAction};
pub use weights::{map_sum, WeightMap, MAX_TOTAL_WEIGHT};
