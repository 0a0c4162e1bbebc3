//! Markers for the logical sub-databases of the keyed record store file,
//! each naming the sub-database it stands for.

use vstd::prelude::*;

verus! {

/// Marker for the sub-database holding the current approvals-hashes records.
#[derive(Debug)]
pub struct ApprovalsHashesDatabase;

impl ApprovalsHashesDatabase {
    /// The sub-database's name inside the store file.
    pub fn db_name() -> (r: &'static str)
        ensures
            r@ == "approvals_hashes"@,
    {
        "approvals_hashes"
    }
}

/// Marker for the sub-database holding the legacy block bodies.
#[derive(Debug)]
pub struct LegacyBlockBodyDatabase;

impl LegacyBlockBodyDatabase {
    /// The sub-database's name inside the store file.
    pub fn db_name() -> (r: &'static str)
        ensures
            r@ == "block_body"@,
    {
        "block_body"
    }
}

/// Marker for the sub-database holding the versioned block bodies.
#[derive(Debug)]
pub struct VersionedBlockBodyDatabase;

impl VersionedBlockBodyDatabase {
    /// The sub-database's name inside the store file.
    pub fn db_name() -> (r: &'static str)
        ensures
            r@ == "block_body_v2"@,
    {
        "block_body_v2"
    }
}

/// Marker for the sub-database holding the legacy block headers.
#[derive(Debug)]
pub struct LegacyBlockHeaderDatabase;

impl LegacyBlockHeaderDatabase {
    /// The sub-database's name inside the store file.
    pub fn db_name() -> (r: &'static str)
        ensures
            r@ == "block_header"@,
    {
        "block_header"
    }
}

/// Marker for the sub-database holding the versioned block headers.
#[derive(Debug)]
pub struct VersionedBlockHeaderDatabase;

impl VersionedBlockHeaderDatabase {
    /// The sub-database's name inside the store file.
    pub fn db_name() -> (r: &'static str)
        ensures
            r@ == "block_header_v2"@,
    {
        "block_header_v2"
    }
}

/// Marker for the sub-database holding the legacy block signatures.
#[derive(Debug)]
pub struct LegacyBlockMetadataDatabase;

impl LegacyBlockMetadataDatabase {
    /// The sub-database's name inside the store file.
    pub fn db_name() -> (r: &'static str)
        ensures
            r@ == "block_metadata"@,
    {
        "block_metadata"
    }
}

/// Marker for the sub-database holding the versioned block signatures.
#[derive(Debug)]
pub struct VersionedBlockMetadataDatabase;

impl VersionedBlockMetadataDatabase {
    /// The sub-database's name inside the store file.
    pub fn db_name() -> (r: &'static str)
        ensures
            r@ == "block_metadata_v2"@,
    {
        "block_metadata_v2"
    }
}

/// Marker for the sub-database holding the legacy per-deploy execution results.
#[derive(Debug)]
pub struct LegacyDeployMetadataDatabase;

impl LegacyDeployMetadataDatabase {
    /// The sub-database's name inside the store file.
    pub fn db_name() -> (r: &'static str)
        ensures
            r@ == "deploy_metadata"@,
    {
        "deploy_metadata"
    }
}

/// Marker for the sub-database holding the versioned execution results.
#[derive(Debug)]
pub struct VersionedExecutionResultsDatabase;

impl VersionedExecutionResultsDatabase {
    /// The sub-database's name inside the store file.
    pub fn db_name() -> (r: &'static str)
        ensures
            r@ == "execution_results"@,
    {
        "execution_results"
    }
}

/// Marker for the sub-database holding the legacy finalized approvals.
#[derive(Debug)]
pub struct FinalizedApprovalsDatabase;

impl FinalizedApprovalsDatabase {
    /// The sub-database's name inside the store file.
    pub fn db_name() -> (r: &'static str)
        ensures
            r@ == "finalized_approvals"@,
    {
        "finalized_approvals"
    }
}

/// Marker for the sub-database holding the transactions.
#[derive(Debug)]
pub struct TransactionsDatabase;

impl TransactionsDatabase {
    /// The sub-database's name inside the store file.
    pub fn db_name() -> (r: &'static str)
        ensures
            r@ == "transactions"@,
    {
        "transactions"
    }
}

/// Marker for the sub-database holding the legacy transfers.
#[derive(Debug)]
pub struct TransferDatabase;

impl TransferDatabase {
    /// The sub-database's name inside the store file.
    pub fn db_name() -> (r: &'static str)
        ensures
            r@ == "transfer"@,
    {
        "transfer"
    }
}

/// Marker for the sub-database holding the versioned approvals hashes.
#[derive(Debug)]
pub struct VersionedApprovalsHashesDatabase;

impl VersionedApprovalsHashesDatabase {
    /// The sub-database's name inside the store file.
    pub fn db_name() -> (r: &'static str)
        ensures
            r@ == "versioned_approvals_hashes"@,
    {
        "versioned_approvals_hashes"
    }
}

/// Marker for the sub-database holding the versioned finalized approvals.
#[derive(Debug)]
pub struct VersionedFinalizedApprovalsDatabase;

impl VersionedFinalizedApprovalsDatabase {
    /// The sub-database's name inside the store file.
    pub fn db_name() -> (r: &'static str)
        ensures
            r@ == "versioned_finalized_approvals"@,
    {
        "versioned_finalized_approvals"
    }
}

/// Marker for the sub-database holding the versioned transfers.
#[derive(Debug)]
pub struct VersionedTransfersDatabase;

impl VersionedTransfersDatabase {
    /// The sub-database's name inside the store file.
    pub fn db_name() -> (r: &'static str)
        ensures
            r@ == "versioned_transfers"@,
    {
        "versioned_transfers"
    }
}

} // verus!
