//! Tests of the sub-database markers.

use casper_db_utils::{
    ApprovalsHashesDatabase, LegacyBlockHeaderDatabase, TransactionsDatabase,
    VersionedBlockHeaderDatabase, VersionedTransfersDatabase,
};

#[test]
fn sub_database_names() {
    assert_eq!(ApprovalsHashesDatabase::db_name(), "approvals_hashes");
    assert_eq!(LegacyBlockHeaderDatabase::db_name(), "block_header");
    assert_eq!(VersionedBlockHeaderDatabase::db_name(), "block_header_v2");
    assert_eq!(TransactionsDatabase::db_name(), "transactions");
    assert_eq!(VersionedTransfersDatabase::db_name(), "versioned_transfers");
}
