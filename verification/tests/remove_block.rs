//! Tests of removing one block's records from the record store.

use casper_db_utils::{
    remove_block, Block, BlockHeader, Digest, ProtocolVersion, RecordStore, RemoveError,
};

fn digest(n: u64) -> Digest {
    let mut bytes = [0u8; 32];
    let mut v: u64 = n;
    let mut i: usize = 0;
    while i < 8 {
        bytes[i] = (v & 0xff) as u8;
        v >>= 8;
        i += 1;
    }
    Digest::new(bytes)
}

fn header(hash: u64, height: u64, era: u64) -> BlockHeader {
    BlockHeader {
        block_hash: digest(hash),
        state_root_hash: digest(hash + 1000),
        height,
        era_id: era,
        is_switch_block: false,
        protocol_version: ProtocolVersion::new(1, 0, 0),
        next_era_validator_weights: None,
    }
}

fn block(hash: u64, height: u64, era: u64, txs: &[u64]) -> Block {
    Block {
        header: header(hash, height, era),
        transaction_hashes: txs.iter().map(|t| digest(*t)).collect(),
    }
}

/// Stores a block with its header.
fn put_block(store: &mut RecordStore, b: &Block) {
    store
        .headers
        .insert(b.header.block_hash, casper_db_utils::clone_header(&b.header));
    store
        .blocks
        .insert(b.header.block_hash, casper_db_utils::clone_block(b));
}

#[test]
fn remove_block_should_work() {
    let mut store = RecordStore::new();
    let blocks = vec![
        block(100, 1, 1, &[10, 11]),
        block(200, 2, 1, &[12, 13]),
    ];
    for t in 10..14u64 {
        store.transactions.insert(digest(t), vec![t as u8]);
        store.execution_results.insert(digest(t), vec![t as u8, 1]);
    }
    for b in &blocks {
        put_block(&mut store, b);
    }

    assert!(remove_block(&mut store, digest(100)).is_ok());

    assert!(store.headers.get(&digest(100)).is_none());
    assert!(store.blocks.get(&digest(100)).is_none());
    assert!(store.headers.get(&digest(200)).is_some());
    assert!(store.blocks.get(&digest(200)).is_some());

    // transactions of the removed block are gone
    assert!(store.transactions.get(&digest(10)).is_none());
    assert!(store.transactions.get(&digest(11)).is_none());

    // so are their execution results
    assert!(store.execution_results.get(&digest(10)).is_none());
    assert!(store.execution_results.get(&digest(11)).is_none());

    // the other block's records are untouched
    assert!(store.transactions.get(&digest(12)).is_some());
    assert!(store.execution_results.get(&digest(13)).is_some());
}

#[test]
fn remove_block_no_deploys() {
    let mut store = RecordStore::new();
    let blocks = vec![block(100, 1, 1, &[]), block(200, 2, 1, &[11, 12])];
    for t in 11..13u64 {
        store.transactions.insert(digest(t), vec![t as u8]);
        store.execution_results.insert(digest(t), vec![t as u8, 1]);
    }
    for b in &blocks {
        put_block(&mut store, b);
    }

    assert!(remove_block(&mut store, digest(100)).is_ok());

    assert!(store.headers.get(&digest(100)).is_none());
    assert!(store.blocks.get(&digest(100)).is_none());
    assert!(store.headers.get(&digest(200)).is_some());
    assert!(store.blocks.get(&digest(200)).is_some());

    // a transaction that was never stored stays absent
    assert!(store.transactions.get(&digest(10)).is_none());

    // the other block's transactions are untouched
    assert!(store.transactions.get(&digest(11)).is_some());
    assert!(store.transactions.get(&digest(12)).is_some());
    assert!(store.execution_results.get(&digest(10)).is_none());
    assert!(store.execution_results.get(&digest(11)).is_some());
    assert!(store.execution_results.get(&digest(12)).is_some());
}

#[test]
fn remove_block_missing_header() {
    let mut store = RecordStore::new();
    let block_hash = digest(42);
    match remove_block(&mut store, block_hash) {
        Err(RemoveError::MissingHeader(actual)) => assert!(actual == block_hash),
        _ => panic!("removing an unknown block must fail"),
    }
}

#[test]
fn remove_block_missing_body() {
    let mut store = RecordStore::new();
    // only the headers are stored, no block bodies
    let blocks = vec![block(100, 1, 1, &[10, 11]), block(200, 2, 1, &[12, 13])];
    for t in 10..14u64 {
        store.execution_results.insert(digest(t), vec![t as u8, 1]);
        store.transactions.insert(digest(t), vec![t as u8]);
    }
    for b in &blocks {
        store
            .headers
            .insert(b.header.block_hash, casper_db_utils::clone_header(&b.header));
    }

    assert!(remove_block(&mut store, digest(100)).is_ok());

    assert!(store.headers.get(&digest(100)).is_none());
    assert!(store.blocks.get(&digest(100)).is_none());
    assert!(store.headers.get(&digest(200)).is_some());
    assert!(store.blocks.get(&digest(200)).is_none());
}

#[test]
fn remove_block_missing_deploys() {
    let mut store = RecordStore::new();
    // the block names one transaction that was never stored
    let b = block(100, 1, 1, &[10]);
    put_block(&mut store, &b);

    assert!(remove_block(&mut store, digest(100)).is_ok());
    assert!(store.transactions.get(&digest(10)).is_none());
    assert!(store.headers.get(&digest(100)).is_none());
    assert!(store.blocks.get(&digest(100)).is_none());
}
