//! Tests of copying one block's flat records into a fresh record store.

use casper_db_utils::{
    transfer_block_info, Block, BlockHeader, BlockSignatures, Digest, ExtractError,
    ProtocolVersion, RecordStore,
};

fn digest(n: u64) -> Digest {
    let mut bytes = [0u8; 32];
    let mut v: u64 = n;
    let mut i: usize = 0;
    while i < 8 {
        bytes[i] = (v & 0xff) as u8;
        v >>= 8;
        i += 1;
    }
    Digest::new(bytes)
}

fn header(hash: u64, height: u64, era: u64) -> BlockHeader {
    BlockHeader {
        block_hash: digest(hash),
        state_root_hash: digest(hash + 1000),
        height,
        era_id: era,
        is_switch_block: false,
        protocol_version: ProtocolVersion::new(1, 0, 0),
        next_era_validator_weights: None,
    }
}

fn block(hash: u64, height: u64, era: u64, txs: &[u64]) -> Block {
    Block {
        header: header(hash, height, era),
        transaction_hashes: txs.iter().map(|t| digest(*t)).collect(),
    }
}

fn put_block(store: &mut RecordStore, b: &Block) {
    store
        .headers
        .insert(b.header.block_hash, casper_db_utils::clone_header(&b.header));
    store
        .blocks
        .insert(b.header.block_hash, casper_db_utils::clone_block(b));
}

/// A source store with three blocks over seven transactions.
fn fixture() -> (Vec<Block>, RecordStore) {
    let mut store = RecordStore::new();
    let blocks = vec![
        block(100, 1, 1, &[10, 11, 12]),
        block(200, 2, 1, &[13, 14]),
        block(300, 3, 1, &[15, 16]),
    ];
    for t in 10..17u64 {
        store.transactions.insert(digest(t), vec![t as u8]);
        store.execution_results.insert(digest(t), vec![t as u8, 1]);
    }
    for b in &blocks {
        put_block(&mut store, b);
    }
    (blocks, store)
}

#[test]
fn transfer_blocks() {
    let (blocks, mut source) = fixture();
    let mut destination = RecordStore::new();

    let block_hash_0 = digest(100);
    let expected_state_root_hash = blocks[0].header.state_root_hash;
    let actual = transfer_block_info(&source, &mut destination, block_hash_0).unwrap();
    assert!(actual == expected_state_root_hash);

    let transferred_header = destination.headers.get(&block_hash_0).unwrap();
    assert_eq!(transferred_header.height, blocks[0].header.height);
    assert!(transferred_header.state_root_hash == blocks[0].header.state_root_hash);
    let transferred_block = destination.blocks.get(&block_hash_0).unwrap();
    assert_eq!(
        transferred_block.transaction_hashes.len(),
        blocks[0].transaction_hashes.len()
    );

    for t in &blocks[0].transaction_hashes {
        assert!(destination.transactions.get(t).is_some());
        assert!(destination.execution_results.get(t).is_some());
    }

    // the other blocks were not transferred
    assert!(destination.headers.get(&digest(200)).is_none());
    assert!(destination.headers.get(&digest(300)).is_none());

    // put some transfers in the source under the second block's hash
    let block_hash_1 = digest(200);
    source.transfers.insert(block_hash_1, vec![1, 2, 3]);

    let expected_state_root_hash = blocks[1].header.state_root_hash;
    let actual = transfer_block_info(&source, &mut destination, block_hash_1).unwrap();
    assert!(actual == expected_state_root_hash);

    assert!(destination.headers.get(&block_hash_1).is_some());
    assert!(destination.blocks.get(&block_hash_1).is_some());
    assert_eq!(destination.transfers.get(&block_hash_1), Some(&vec![1, 2, 3]));

    for t in &blocks[1].transaction_hashes {
        assert!(destination.transactions.get(t).is_some());
        assert!(destination.execution_results.get(t).is_some());
    }

    assert!(destination.headers.get(&digest(300)).is_none());
}

#[test]
fn transfer_copies_signatures_and_approvals_when_present() {
    let (_blocks, mut source) = fixture();
    let block_hash = digest(100);
    let mut sigs = BlockSignatures::new(block_hash, 1);
    sigs.insert_signature(0, 1);
    source.signatures.insert(block_hash, sigs);
    source.approvals_hashes.insert(block_hash, vec![9, 9]);
    source.finalized_approvals.insert(digest(10), vec![4]);

    let mut destination = RecordStore::new();
    transfer_block_info(&source, &mut destination, block_hash).unwrap();

    assert!(destination.signatures.get(&block_hash).is_some());
    assert_eq!(destination.approvals_hashes.get(&block_hash), Some(&vec![9, 9]));
    assert_eq!(destination.finalized_approvals.get(&digest(10)), Some(&vec![4]));
    // approvals were stored for one transaction only
    assert!(destination.finalized_approvals.get(&digest(11)).is_none());
}

#[test]
fn transfer_missing_block_fails() {
    let (_blocks, source) = fixture();
    let mut destination = RecordStore::new();
    let absent = digest(999);
    match transfer_block_info(&source, &mut destination, absent) {
        Err(ExtractError::MissingBlock(d)) => assert!(d == absent),
        _ => panic!("transferring an unknown block must fail"),
    }
    assert!(destination.blocks.get(&absent).is_none());
}

#[test]
fn transfer_missing_transaction_fails_without_writing() {
    let (_blocks, mut source) = fixture();
    // drop one of the first block's transactions from the source
    source.transactions.remove(&digest(11));

    let mut destination = RecordStore::new();
    match transfer_block_info(&source, &mut destination, digest(100)) {
        Err(ExtractError::MissingTransaction(t)) => assert!(t == digest(11)),
        _ => panic!("a missing transaction must fail the transfer"),
    }
    // nothing was written
    assert!(destination.blocks.get(&digest(100)).is_none());
    assert!(destination.transactions.get(&digest(10)).is_none());
}

#[test]
fn transfer_missing_execution_result_fails_without_writing() {
    let (_blocks, mut source) = fixture();
    source.execution_results.remove(&digest(12));

    let mut destination = RecordStore::new();
    match transfer_block_info(&source, &mut destination, digest(100)) {
        Err(ExtractError::MissingExecutionResult(t)) => assert!(t == digest(12)),
        _ => panic!("a missing execution result must fail the transfer"),
    }
    assert!(destination.blocks.get(&digest(100)).is_none());
    assert!(destination.transactions.get(&digest(10)).is_none());
}
