//! Tests of the chain indexer, the era weight cache and the purge
//! orchestrator.

use casper_db_utils::{
    initialize_indices, purge_signatures_for_blocks, BlockHeader, BlockSignatures, Digest,
    DigestMap, EraWeights, Error, ProtocolVersion, WeightMap,
};

fn digest(n: u64) -> Digest {
    let mut bytes = [0u8; 32];
    let mut v: u64 = n;
    let mut i: usize = 0;
    while i < 8 {
        bytes[i] = (v & 0xff) as u8;
        v >>= 8;
        i += 1;
    }
    Digest::new(bytes)
}

fn weights(entries: &[(u64, u128)]) -> WeightMap {
    let mut w = WeightMap::new();
    for (k, v) in entries {
        assert!(w.insert(*k, *v));
    }
    w
}

fn header(
    hash: u64,
    height: u64,
    era: u64,
    switch: bool,
    version: (u32, u32, u32),
    next_weights: Option<&[(u64, u128)]>,
) -> BlockHeader {
    BlockHeader {
        block_hash: digest(hash),
        state_root_hash: digest(hash + 1000),
        height,
        era_id: era,
        is_switch_block: switch,
        protocol_version: ProtocolVersion::new(version.0, version.1, version.2),
        next_era_validator_weights: next_weights.map(weights),
    }
}

fn header_store(headers: &[&BlockHeader]) -> DigestMap<BlockHeader> {
    let mut store = DigestMap::new();
    for h in headers {
        store.insert(h.block_hash, clone(h));
    }
    store
}

fn clone(h: &BlockHeader) -> BlockHeader {
    casper_db_utils::clone_header(h)
}

fn signatures(block_hash: Digest, era: u64, signers: &[u64]) -> BlockSignatures {
    let mut s = BlockSignatures::new(block_hash, era);
    for k in signers {
        s.insert_signature(*k, 1);
    }
    s
}

#[test]
fn indices_initialization() {
    let blocks = vec![
        header(100, 100, 10, false, (1, 0, 0), None),
        header(200, 200, 10, false, (1, 0, 0), None),
        header(300, 300, 20, false, (1, 0, 0), None),
        header(400, 400, 20, false, (1, 0, 0), None),
    ];
    let switch_blocks = vec![
        header(80, 80, 9, true, (1, 0, 0), None),
        header(280, 280, 19, true, (1, 0, 0), None),
    ];

    let mut scan: Vec<BlockHeader> = Vec::new();
    scan.push(clone(&switch_blocks[0]));
    scan.push(clone(&blocks[0]));
    scan.push(clone(&blocks[1]));
    scan.push(clone(&switch_blocks[1]));
    scan.push(clone(&blocks[2]));
    scan.push(clone(&blocks[3]));

    let indices = initialize_indices(&scan, &vec![100, 200, 300]).unwrap();

    // the relevant blocks are in the indices
    assert!(indices.heights.get(100).unwrap().block_hash == blocks[0].block_hash);
    assert!(indices.heights.get(200).unwrap().block_hash == blocks[1].block_hash);
    assert!(indices.heights.get(300).unwrap().block_hash == blocks[2].block_hash);
    // and the irrelevant ones are not included
    assert!(!indices.heights.contains_key(400));
    // every switch block is recorded under the era its weights serve
    assert!(*indices.switch_blocks.get(10).unwrap() == switch_blocks[0].block_hash);
    assert!(*indices.switch_blocks.get(20).unwrap() == switch_blocks[1].block_hash);
}

#[test]
fn indices_initialization_with_upgrade() {
    let blocks = vec![
        header(81, 80, 10, false, (1, 0, 0), None),
        header(200, 200, 11, false, (1, 1, 0), None),
        header(290, 290, 12, false, (2, 0, 0), None),
        header(350, 350, 13, false, (2, 0, 0), None),
    ];
    let switch_blocks = vec![
        header(60, 60, 9, true, (1, 0, 0), None),
        header(180, 180, 10, true, (1, 0, 0), None),
        header(250, 250, 11, true, (1, 1, 0), None),
        header(300, 300, 12, true, (2, 0, 0), None),
    ];

    let mut scan: Vec<BlockHeader> = Vec::new();
    scan.push(clone(&switch_blocks[0]));
    scan.push(clone(&blocks[0]));
    scan.push(clone(&switch_blocks[1]));
    scan.push(clone(&blocks[1]));
    scan.push(clone(&switch_blocks[2]));
    scan.push(clone(&blocks[2]));
    scan.push(clone(&switch_blocks[3]));
    scan.push(clone(&blocks[3]));

    let indices = initialize_indices(&scan, &vec![100, 200, 300]).unwrap();
    assert!(!indices.switch_blocks_before_upgrade.contains(&60));
    assert!(indices.switch_blocks_before_upgrade.contains(&180));
    assert!(indices.switch_blocks_before_upgrade.contains(&250));
    assert!(!indices.switch_blocks_before_upgrade.contains(&300));
}

#[test]
fn era_weights() {
    let switch_blocks = vec![
        header(80, 80, 10, true, (1, 0, 0), Some(&[(0, 100)])),
        header(280, 280, 20, true, (1, 0, 0), Some(&[(1, 100)])),
    ];
    let scan = vec![clone(&switch_blocks[0]), clone(&switch_blocks[1])];
    let headers = header_store(&[&switch_blocks[0], &switch_blocks[1]]);
    let indices = initialize_indices(&scan, &vec![80]).unwrap();
    let mut era_weights = EraWeights::new();

    // the first switch block's weights
    assert!(!era_weights
        .refresh_weights_for_era(&headers, &indices, 11)
        .unwrap());
    assert_eq!(era_weights.era_id(), 11);
    assert_eq!(*era_weights.weights().unwrap().get(0).unwrap(), 100);
    assert!(!era_weights.weights().unwrap().contains_key(1));

    // the second switch block's weights
    assert!(!era_weights
        .refresh_weights_for_era(&headers, &indices, 21)
        .unwrap());
    assert_eq!(era_weights.era_id(), 21);
    assert_eq!(*era_weights.weights().unwrap().get(1).unwrap(), 100);
    assert!(!era_weights.weights().unwrap().contains_key(0));

    // refreshing the same era again changes nothing
    assert!(!era_weights
        .refresh_weights_for_era(&headers, &indices, 21)
        .unwrap());
    assert_eq!(era_weights.era_id(), 21);
    assert_eq!(*era_weights.weights().unwrap().get(1).unwrap(), 100);
    assert!(!era_weights.weights().unwrap().contains_key(0));

    // an era without a recorded switch block
    match era_weights.refresh_weights_for_era(&headers, &indices, 22) {
        Err(Error::MissingEraWeights(era)) => assert_eq!(era, 22),
        _ => panic!("Unexpected failure"),
    }
}

#[test]
fn era_weights_with_upgrade() {
    let switch_blocks = vec![
        header(80, 80, 10, true, (1, 0, 0), Some(&[(0, 100)])),
        header(280, 280, 11, true, (1, 1, 0), Some(&[(1, 100)])),
    ];
    let scan = vec![clone(&switch_blocks[0]), clone(&switch_blocks[1])];
    let headers = header_store(&[&switch_blocks[0], &switch_blocks[1]]);
    let indices = initialize_indices(&scan, &vec![80, 280]).unwrap();
    let mut era_weights = EraWeights::new();

    assert!(era_weights
        .refresh_weights_for_era(&headers, &indices, 11)
        .unwrap());
    assert!(!era_weights
        .refresh_weights_for_era(&headers, &indices, 12)
        .unwrap());
    assert!(era_weights
        .refresh_weights_for_era(&headers, &indices, 11)
        .unwrap());
    assert!(!era_weights
        .refresh_weights_for_era(&headers, &indices, 12)
        .unwrap());
}

#[test]
fn purge_signatures_should_work() {
    let blocks = vec![
        header(100, 100, 10, false, (1, 0, 0), None),
        header(200, 200, 10, false, (1, 0, 0), None),
        header(300, 300, 20, false, (1, 0, 0), None),
        header(400, 400, 20, false, (1, 0, 0), None),
    ];
    let switch_blocks = vec![
        header(80, 80, 9, true, (1, 0, 0), Some(&[(0, 500), (1, 500)])),
        header(
            280,
            280,
            19,
            true,
            (1, 0, 0),
            Some(&[(0, 300), (1, 300), (2, 400)]),
        ),
    ];

    let mut sig_store: DigestMap<BlockSignatures> = DigestMap::new();
    sig_store.insert(
        blocks[0].block_hash,
        signatures(blocks[0].block_hash, 10, &[0, 1]),
    );
    sig_store.insert(
        blocks[1].block_hash,
        signatures(blocks[1].block_hash, 10, &[0]),
    );
    sig_store.insert(
        blocks[2].block_hash,
        signatures(blocks[2].block_hash, 20, &[0, 1, 2]),
    );
    sig_store.insert(
        blocks[3].block_hash,
        signatures(blocks[3].block_hash, 20, &[0, 2]),
    );

    let mut scan: Vec<BlockHeader> = Vec::new();
    scan.push(clone(&switch_blocks[0]));
    scan.push(clone(&blocks[0]));
    scan.push(clone(&blocks[1]));
    scan.push(clone(&switch_blocks[1]));
    scan.push(clone(&blocks[2]));
    scan.push(clone(&blocks[3]));
    let headers = header_store(&[&switch_blocks[0], &switch_blocks[1]]);
    let indices = initialize_indices(&scan, &vec![100, 200, 300, 400]).unwrap();

    // purge blocks 1, 2 and 3 to weak finality
    assert!(purge_signatures_for_blocks(
        &mut sig_store,
        &headers,
        &indices,
        &vec![100, 200, 300],
        false
    )
    .is_ok());

    // block 1: either signature alone is fine (500 of 1000), but not both
    let block_1_sigs = sig_store.get(&blocks[0].block_hash).unwrap();
    let a = block_1_sigs.proofs().contains_key(0);
    let b = block_1_sigs.proofs().contains_key(1);
    assert!((a && !b) || (!a && b));

    // block 2 only had the first signature, which already meets the band
    let block_2_sigs = sig_store.get(&blocks[1].block_hash).unwrap();
    assert!(block_2_sigs.proofs().contains_key(0));
    assert!(!block_2_sigs.proofs().contains_key(1));

    // block 3 had all three keys (300, 300, 400): it keeps the first two
    let block_3_sigs = sig_store.get(&blocks[2].block_hash).unwrap();
    assert!(block_3_sigs.proofs().contains_key(0));
    assert!(block_3_sigs.proofs().contains_key(1));
    assert!(!block_3_sigs.proofs().contains_key(2));

    // block 4 was not listed: it keeps both signatures
    let block_4_sigs = sig_store.get(&blocks[3].block_hash).unwrap();
    assert!(block_4_sigs.proofs().contains_key(0));
    assert!(!block_4_sigs.proofs().contains_key(1));
    assert!(block_4_sigs.proofs().contains_key(2));

    // purge blocks 1 and 4 to no finality
    assert!(purge_signatures_for_blocks(
        &mut sig_store,
        &headers,
        &indices,
        &vec![100, 400],
        true
    )
    .is_ok());

    // no record for block 1 remains
    assert!(sig_store.get(&blocks[0].block_hash).is_none());

    // block 2 is as before
    let block_2_sigs = sig_store.get(&blocks[1].block_hash).unwrap();
    assert!(block_2_sigs.proofs().contains_key(0));
    assert!(!block_2_sigs.proofs().contains_key(1));

    // block 3 is as before
    let block_3_sigs = sig_store.get(&blocks[2].block_hash).unwrap();
    assert!(block_3_sigs.proofs().contains_key(0));
    assert!(block_3_sigs.proofs().contains_key(1));
    assert!(!block_3_sigs.proofs().contains_key(2));

    // no record for block 4 remains
    assert!(sig_store.get(&blocks[3].block_hash).is_none());
}

#[test]
fn purge_signatures_bad_input() {
    let blocks = vec![
        header(100, 100, 10, false, (1, 0, 0), None),
        header(200, 200, 20, false, (1, 0, 0), None),
    ];
    let switch_blocks = vec![
        header(80, 80, 9, true, (1, 0, 0), Some(&[(0, 700), (1, 300)])),
        header(180, 180, 19, true, (1, 0, 0), Some(&[(0, 400), (1, 600)])),
    ];

    let mut sig_store: DigestMap<BlockSignatures> = DigestMap::new();
    sig_store.insert(
        blocks[0].block_hash,
        signatures(blocks[0].block_hash, 10, &[0, 1]),
    );
    sig_store.insert(
        blocks[1].block_hash,
        signatures(blocks[1].block_hash, 20, &[0, 1]),
    );

    let mut scan: Vec<BlockHeader> = Vec::new();
    scan.push(clone(&switch_blocks[0]));
    scan.push(clone(&blocks[0]));
    scan.push(clone(&switch_blocks[1]));
    scan.push(clone(&blocks[1]));
    let headers = header_store(&[&switch_blocks[0], &switch_blocks[1]]);
    let indices = initialize_indices(&scan, &vec![100]).unwrap();

    // purge both blocks to weak finality; only height 100 is indexed
    assert!(purge_signatures_for_blocks(
        &mut sig_store,
        &headers,
        &indices,
        &vec![100, 200],
        false
    )
    .is_ok());

    // block 1 has a supermajority signer (700): no valid reduction, so
    // the signatures are untouched
    let block_1_sigs = sig_store.get(&blocks[0].block_hash).unwrap();
    assert!(block_1_sigs.proofs().contains_key(0));
    assert!(block_1_sigs.proofs().contains_key(1));

    // block 2 was not indexed, so it is untouched
    let block_2_sigs = sig_store.get(&blocks[1].block_hash).unwrap();
    assert!(block_2_sigs.proofs().contains_key(0));
    assert!(block_2_sigs.proofs().contains_key(1));
}

#[test]
fn purge_signatures_missing_from_db() {
    let blocks = vec![
        header(100, 100, 10, false, (1, 0, 0), None),
        header(200, 200, 10, false, (1, 0, 0), None),
    ];
    let switch_block = header(80, 80, 9, true, (1, 0, 0), Some(&[(0, 400), (1, 600)]));

    // only block 1 has a signature record
    let mut sig_store: DigestMap<BlockSignatures> = DigestMap::new();
    sig_store.insert(
        blocks[0].block_hash,
        signatures(blocks[0].block_hash, 10, &[0, 1]),
    );

    let mut scan: Vec<BlockHeader> = Vec::new();
    scan.push(clone(&switch_block));
    scan.push(clone(&blocks[0]));
    scan.push(clone(&blocks[1]));
    let headers = header_store(&[&switch_block]);
    let indices = initialize_indices(&scan, &vec![100, 200]).unwrap();

    // a missing signature record is skipped, not an error
    assert!(purge_signatures_for_blocks(
        &mut sig_store,
        &headers,
        &indices,
        &vec![100, 200],
        false
    )
    .is_ok());

    // block 1 had both keys (400, 600): it keeps the first one
    let block_1_sigs = sig_store.get(&blocks[0].block_hash).unwrap();
    assert!(block_1_sigs.proofs().contains_key(0));
    assert!(!block_1_sigs.proofs().contains_key(1));
    assert!(sig_store.get(&blocks[1].block_hash).is_none());

    // the same holds for a full purge
    assert!(purge_signatures_for_blocks(
        &mut sig_store,
        &headers,
        &indices,
        &vec![100, 200],
        true
    )
    .is_ok());
    assert!(sig_store.get(&blocks[0].block_hash).is_none());
    assert!(sig_store.get(&blocks[1].block_hash).is_none());
}

#[test]
fn purge_signatures_empty_height_list() {
    let mut sig_store: DigestMap<BlockSignatures> = DigestMap::new();
    let headers: DigestMap<BlockHeader> = DigestMap::new();
    let scan = vec![header(80, 80, 9, true, (1, 0, 0), None)];
    let indices = initialize_indices(&scan, &vec![]).unwrap();
    match purge_signatures_for_blocks(&mut sig_store, &headers, &indices, &vec![], false) {
        Err(Error::EmptyBlockList) => {}
        _ => panic!("an empty height list must be rejected"),
    }
}

#[test]
fn purge_signatures_missing_era_weights_is_fatal() {
    // the block's era has a switch block, but it carries no weight table
    let block = header(100, 100, 10, false, (1, 0, 0), None);
    let switch_block = header(80, 80, 9, true, (1, 0, 0), None);

    let mut sig_store: DigestMap<BlockSignatures> = DigestMap::new();
    sig_store.insert(block.block_hash, signatures(block.block_hash, 10, &[0, 1]));

    let scan = vec![clone(&switch_block), clone(&block)];
    let headers = header_store(&[&switch_block]);
    let indices = initialize_indices(&scan, &vec![100]).unwrap();

    match purge_signatures_for_blocks(&mut sig_store, &headers, &indices, &vec![100], false) {
        Err(Error::MissingEraWeights(era)) => assert_eq!(era, 10),
        _ => panic!("missing era weights must be fatal"),
    }
    // the failed batch left the store untouched
    let sigs = sig_store.get(&block.block_hash).unwrap();
    assert!(sigs.proofs().contains_key(0));
    assert!(sigs.proofs().contains_key(1));
}

#[test]
fn initialize_indices_rejects_empty_chain() {
    match initialize_indices(&vec![], &vec![100]) {
        Err(Error::EmptyDatabase) => {}
        _ => panic!("an empty chain must be rejected"),
    }
}

#[test]
fn initialize_indices_rejects_duplicate_heights() {
    let scan = vec![
        header(1, 100, 10, false, (1, 0, 0), None),
        header(2, 100, 10, false, (1, 0, 0), None),
    ];
    match initialize_indices(&scan, &vec![100]) {
        Err(Error::DuplicateBlock(h)) => assert_eq!(h, 100),
        _ => panic!("a duplicate requested height must be rejected"),
    }
}
