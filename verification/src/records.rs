//! The keyed record store and the flat-record operations on it: copying
//! one block's records into a fresh store for slice extraction, and
//! removing one block's records.

use vstd::prelude::*;

use crate::block::{clone_block, clone_header, Block, BlockHeader};
use crate::digest::Digest;
use crate::maps::DigestMap;
use crate::purge::clone_signatures;
use crate::signatures::BlockSignatures;

verus! {

/// Failures of the block-slice extraction.
#[derive(Debug)]
pub enum ExtractError {
    /// The requested block is not in the source store.
    MissingBlock(Digest),
    /// A transaction of the block is not in the source store.
    MissingTransaction(Digest),
    /// A transaction's execution result is not in the source store.
    MissingExecutionResult(Digest),
}

/// Failures of the block removal.
#[derive(Debug)]
pub enum RemoveError {
    /// No header is stored under the hash.
    MissingHeader(Digest),
}

/// The keyed record store: one sub-store per record kind, every record
/// reached by a block hash or a transaction hash.
pub struct RecordStore {
    pub headers: DigestMap<BlockHeader>,
    pub blocks: DigestMap<Block>,
    pub transactions: DigestMap<Vec<u8>>,
    pub finalized_approvals: DigestMap<Vec<u8>>,
    pub execution_results: DigestMap<Vec<u8>>,
    pub transfers: DigestMap<Vec<u8>>,
    pub signatures: DigestMap<BlockSignatures>,
    pub approvals_hashes: DigestMap<Vec<u8>>,
}

impl RecordStore {
    pub open spec fn wf(&self) -> bool {
        &&& self.headers.wf()
        &&& forall|i: int|
            0 <= i < self.headers.entries@.len() ==> (#[trigger] self.headers.entries@[i].1).wf()
        &&& self.blocks.wf()
        &&& forall|i: int|
            0 <= i < self.blocks.entries@.len() ==> (#[trigger] self.blocks.entries@[i].1).wf()
        &&& self.transactions.wf()
        &&& self.finalized_approvals.wf()
        &&& self.execution_results.wf()
        &&& self.transfers.wf()
        &&& self.signatures.wf()
        &&& forall|i: int|
            0 <= i < self.signatures.entries@.len() ==> (
            #[trigger] self.signatures.entries@[i].1).wf()
        &&& self.approvals_hashes.wf()
    }

    pub fn new() -> (r: RecordStore)
        ensures
            r.wf(),
            r.headers@ =~= Map::<Seq<u8>, crate::block::HeaderV>::empty(),
            r.blocks@ =~= Map::<Seq<u8>, crate::block::BlockV>::empty(),
            r.transactions@ =~= Map::<Seq<u8>, Seq<u8>>::empty(),
            r.finalized_approvals@ =~= Map::<Seq<u8>, Seq<u8>>::empty(),
            r.execution_results@ =~= Map::<Seq<u8>, Seq<u8>>::empty(),
            r.transfers@ =~= Map::<Seq<u8>, Seq<u8>>::empty(),
            r.signatures@ =~= Map::<Seq<u8>, crate::signatures::SigRecordV>::empty(),
            r.approvals_hashes@ =~= Map::<Seq<u8>, Seq<u8>>::empty(),
    {
        RecordStore {
            headers: DigestMap::new(),
            blocks: DigestMap::new(),
            transactions: DigestMap::new(),
            finalized_approvals: DigestMap::new(),
            execution_results: DigestMap::new(),
            transfers: DigestMap::new(),
            signatures: DigestMap::new(),
            approvals_hashes: DigestMap::new(),
        }
    }
}

/// Copies a byte record.
fn clone_record(v: &Vec<u8>) -> (r: Vec<u8>)
    ensures
        r@ == v@,
{
    let n = v.len();
    let mut r: Vec<u8> = Vec::new();
    let mut i: usize = 0;
    while i < n
        invariant
            i <= n,
            n == v@.len(),
            r@ =~= v@.subrange(0, i as int),
        decreases n - i,
    {
        r.push(v[i]);
        proof {
            assert(r@ =~= v@.subrange(0, i + 1 as int));
        }
        i += 1;
    }
    proof {
        assert(r@ =~= v@);
    }
    r
}

/// The first failure that reading a block's transactions runs into: the
/// flag is true for a missing transaction, false for a missing execution
/// result; the digest names the transaction.
pub open spec fn tx_scan(
    transactions: Map<Seq<u8>, Seq<u8>>,
    execution_results: Map<Seq<u8>, Seq<u8>>,
    txs: Seq<Seq<u8>>,
) -> Option<(bool, Seq<u8>)>
    decreases txs.len(),
{
    if txs.len() == 0 {
        None
    } else {
        if !transactions.dom().contains(txs[0]) {
            Some((true, txs[0]))
        } else if !execution_results.dom().contains(txs[0]) {
            Some((false, txs[0]))
        } else {
            tx_scan(transactions, execution_results, txs.subrange(1, txs.len() as int))
        }
    }
}

/// Copies one block's flat records — header, block, transactions, their
/// finalized approvals and execution results, transfers, signatures and
/// approvals hashes — from `source` into `destination`, and returns the
/// block's state root hash for the trie copy that follows. Optional
/// records absent from the source are skipped; a missing block,
/// transaction or execution result aborts the transfer and leaves the
/// destination unchanged.
pub fn transfer_block_info(
    source: &RecordStore,
    destination: &mut RecordStore,
    block_hash: Digest,
) -> (r: Result<Digest, ExtractError>)
    requires
        source.wf(),
        old(destination).wf(),
    ensures
        final(destination).wf(),
        match r {
            Result::Ok(root) => {
                let block = source.blocks@[block_hash@];
                let txs = block.transaction_hashes;
                &&& source.blocks@.dom().contains(block_hash@)
                &&& tx_scan(source.transactions@, source.execution_results@, txs) is None
                &&& root@ == block.header.state_root_hash
                &&& final(destination).blocks@ =~= old(destination).blocks@.insert(
                    block_hash@,
                    block,
                )
                &&& final(destination).headers@ =~= old(destination).headers@.insert(
                    block_hash@,
                    block.header,
                )
                &&& forall|k: Seq<u8>|
                    #![trigger final(destination).transactions@.dom().contains(k)]
                    #![trigger final(destination).transactions@[k]]
                    {
                        &&& (final(destination).transactions@.dom().contains(k) <==> (old(destination).transactions@.dom().contains(k) || txs.contains(k)))
                        &&& (final(destination).transactions@.dom().contains(k)
                            ==> final(destination).transactions@[k] == if txs.contains(k) {
                            source.transactions@[k]
                        } else {
                            old(destination).transactions@[k]
                        })
                    }
                &&& forall|k: Seq<u8>|
                    #![trigger final(destination).execution_results@.dom().contains(k)]
                    #![trigger final(destination).execution_results@[k]]
                    {
                        &&& (final(destination).execution_results@.dom().contains(k) <==> (old(destination).execution_results@.dom().contains(k) || txs.contains(k)))
                        &&& (final(destination).execution_results@.dom().contains(k)
                            ==> final(destination).execution_results@[k] == if txs.contains(k) {
                            source.execution_results@[k]
                        } else {
                            old(destination).execution_results@[k]
                        })
                    }
                &&& forall|k: Seq<u8>|
                    #![trigger final(destination).finalized_approvals@.dom().contains(k)]
                    #![trigger final(destination).finalized_approvals@[k]]
                    {
                        &&& (final(destination).finalized_approvals@.dom().contains(k) <==> (old(destination).finalized_approvals@.dom().contains(k) || (txs.contains(k)
                            && source.finalized_approvals@.dom().contains(k))))
                        &&& (final(destination).finalized_approvals@.dom().contains(k)
                            ==> final(destination).finalized_approvals@[k] == if txs.contains(k)
                            && source.finalized_approvals@.dom().contains(k) {
                            source.finalized_approvals@[k]
                        } else {
                            old(destination).finalized_approvals@[k]
                        })
                    }
                &&& final(destination).transfers@ =~= if source.transfers@.dom().contains(
                    block_hash@,
                ) {
                    old(destination).transfers@.insert(block_hash@, source.transfers@[block_hash@])
                } else {
                    old(destination).transfers@
                }
                &&& final(destination).signatures@ =~= if source.signatures@.dom().contains(
                    block_hash@,
                ) {
                    old(destination).signatures@.insert(
                        block_hash@,
                        source.signatures@[block_hash@],
                    )
                } else {
                    old(destination).signatures@
                }
                &&& final(destination).approvals_hashes@ =~= if source.approvals_hashes@.dom().contains(
                    block_hash@,
                ) {
                    old(destination).approvals_hashes@.insert(
                        block_hash@,
                        source.approvals_hashes@[block_hash@],
                    )
                } else {
                    old(destination).approvals_hashes@
                }
            },
            Result::Err(ExtractError::MissingBlock(d)) => {
                &&& d@ == block_hash@
                &&& !source.blocks@.dom().contains(block_hash@)
                &&& *final(destination) == *old(destination)
            },
            Result::Err(ExtractError::MissingTransaction(t)) => {
                &&& source.blocks@.dom().contains(block_hash@)
                &&& tx_scan(
                    source.transactions@,
                    source.execution_results@,
                    source.blocks@[block_hash@].transaction_hashes,
                ) == Some((true, t@))
                &&& *final(destination) == *old(destination)
            },
            Result::Err(ExtractError::MissingExecutionResult(t)) => {
                &&& source.blocks@.dom().contains(block_hash@)
                &&& tx_scan(
                    source.transactions@,
                    source.execution_results@,
                    source.blocks@[block_hash@].transaction_hashes,
                ) == Some((false, t@))
                &&& *final(destination) == *old(destination)
            },
        },
{
    let block = match source.blocks.get(&block_hash) {
        Some(b) => b,
        None => {
            return Err(ExtractError::MissingBlock(block_hash));
        },
    };
    proof {
        assert(block.wf()) by {
            let a = choose|a: int|
                0 <= a < source.blocks.entries@.len() && #[trigger] source.blocks.entries@[a].0@
                    == block_hash@ && source.blocks.entries@[a].1 == *block;
            assert(source.blocks.entries@[a].1.wf());
        }
    }
    let ghost txs = block@.transaction_hashes;
    let ntx = block.transaction_hashes.len();

    // validate every transaction and execution result before writing
    proof {
        assert(txs.subrange(0, txs.len() as int) =~= txs);
    }
    let mut v: usize = 0;
    while v < ntx
        invariant
            source.wf(),
            destination.wf(),
            *destination == *old(destination),
            v <= ntx,
            ntx == block.transaction_hashes@.len(),
            txs == block@.transaction_hashes,
            source.blocks@.dom().contains(block_hash@),
            block@ == source.blocks@[block_hash@],
            forall|a: int|
                0 <= a < v ==> source.transactions@.dom().contains(#[trigger] txs[a])
                    && source.execution_results@.dom().contains(txs[a]),
            tx_scan(source.transactions@, source.execution_results@, txs) == tx_scan(
                source.transactions@,
                source.execution_results@,
                txs.subrange(v as int, txs.len() as int),
            ),
        decreases ntx - v,
    {
        let t = &block.transaction_hashes[v];
        proof {
            assert(txs[v as int] == t@);
            assert(txs.subrange(v as int, txs.len() as int)[0] == t@);
        }
        if !source.transactions.contains_key(t) {
            return Err(ExtractError::MissingTransaction(*t));
        }
        if !source.execution_results.contains_key(t) {
            return Err(ExtractError::MissingExecutionResult(*t));
        }
        proof {
            assert(txs.subrange(v as int, txs.len() as int).subrange(
                1,
                txs.subrange(v as int, txs.len() as int).len() as int,
            ) =~= txs.subrange(v + 1 as int, txs.len() as int));
        }
        v += 1;
    }
    proof {
        assert(txs.subrange(ntx as int, txs.len() as int) =~= Seq::<Seq<u8>>::empty());
    }

    // write the block and its header
    destination.blocks.insert(block_hash, clone_block(block));
    destination.headers.insert(block_hash, clone_header(&block.header));
    proof {
        assert forall|a: int|
            0 <= a < destination.blocks.entries@.len() implies (
        #[trigger] destination.blocks.entries@[a].1).wf() by {
            if destination.blocks.entries@[a].1@ != block@ {
            }
        }
    }

    // copy the transactions, their approvals and their execution results
    let mut w: usize = 0;
    while w < ntx
        invariant
            source.wf(),
            destination.headers.wf(),
            forall|i: int|
                0 <= i < destination.headers.entries@.len() ==> (
                #[trigger] destination.headers.entries@[i].1).wf(),
            destination.blocks.wf(),
            forall|i: int|
                0 <= i < destination.blocks.entries@.len() ==> (
                #[trigger] destination.blocks.entries@[i].1).wf(),
            destination.transactions.wf(),
            destination.finalized_approvals.wf(),
            destination.execution_results.wf(),
            destination.transfers.wf(),
            destination.signatures.wf(),
            forall|i: int|
                0 <= i < destination.signatures.entries@.len() ==> (
                #[trigger] destination.signatures.entries@[i].1).wf(),
            destination.approvals_hashes.wf(),
            w <= ntx,
            ntx == block.transaction_hashes@.len(),
            txs == block@.transaction_hashes,
            forall|a: int| 0 <= a < ntx ==> source.transactions@.dom().contains(#[trigger] txs[a]),
            forall|a: int|
                0 <= a < ntx ==> source.execution_results@.dom().contains(#[trigger] txs[a]),
            destination.headers@ == old(destination).headers@.insert(
                block_hash@,
                block@.header,
            ),
            destination.blocks@ == old(destination).blocks@.insert(block_hash@, block@),
            destination.transfers@ == old(destination).transfers@,
            destination.signatures@ == old(destination).signatures@,
            destination.approvals_hashes@ == old(destination).approvals_hashes@,
            forall|k: Seq<u8>|
                #![trigger destination.transactions@.dom().contains(k)]
                #![trigger destination.transactions@[k]]
                {
                    &&& (destination.transactions@.dom().contains(k) <==> (old(destination).transactions@.dom().contains(k) || txs.subrange(0, w as int).contains(k)))
                    &&& (destination.transactions@.dom().contains(k)
                        ==> destination.transactions@[k] == if txs.subrange(0, w as int).contains(
                        k,
                    ) {
                        source.transactions@[k]
                    } else {
                        old(destination).transactions@[k]
                    })
                },
            forall|k: Seq<u8>|
                #![trigger destination.execution_results@.dom().contains(k)]
                #![trigger destination.execution_results@[k]]
                {
                    &&& (destination.execution_results@.dom().contains(k) <==> (old(destination).execution_results@.dom().contains(k) || txs.subrange(0, w as int).contains(
                        k,
                    )))
                    &&& (destination.execution_results@.dom().contains(k)
                        ==> destination.execution_results@[k] == if txs.subrange(
                        0,
                        w as int,
                    ).contains(k) {
                        source.execution_results@[k]
                    } else {
                        old(destination).execution_results@[k]
                    })
                },
            forall|k: Seq<u8>|
                #![trigger destination.finalized_approvals@.dom().contains(k)]
                #![trigger destination.finalized_approvals@[k]]
                {
                    &&& (destination.finalized_approvals@.dom().contains(k) <==> (old(destination).finalized_approvals@.dom().contains(k) || (txs.subrange(
                        0,
                        w as int,
                    ).contains(k) && source.finalized_approvals@.dom().contains(k))))
                    &&& (destination.finalized_approvals@.dom().contains(k)
                        ==> destination.finalized_approvals@[k] == if txs.subrange(
                        0,
                        w as int,
                    ).contains(k) && source.finalized_approvals@.dom().contains(k) {
                        source.finalized_approvals@[k]
                    } else {
                        old(destination).finalized_approvals@[k]
                    })
                },
        decreases ntx - w,
    {
        let t = block.transaction_hashes[w];
        proof {
            assert(txs[w as int] == t@);
            assert(txs.subrange(0, w + 1 as int) =~= txs.subrange(0, w as int).push(t@));
            assert forall|k: Seq<u8>| #[trigger] txs.subrange(0, w + 1 as int).contains(k)
                implies txs.subrange(0, w as int).contains(k) || k == t@ by {
                let a = choose|a: int|
                    0 <= a < txs.subrange(0, w + 1 as int).len() && #[trigger] txs.subrange(
                        0,
                        w + 1 as int,
                    )[a] == k;
                if a < w {
                    assert(txs.subrange(0, w as int)[a] == k);
                }
            }
            assert forall|k: Seq<u8>| txs.subrange(0, w as int).contains(k) implies txs.subrange(
                0,
                w + 1 as int,
            ).contains(k) by {
                let a = choose|a: int|
                    0 <= a < txs.subrange(0, w as int).len() && #[trigger] txs.subrange(
                        0,
                        w as int,
                    )[a] == k;
                assert(txs.subrange(0, w + 1 as int)[a] == k);
            }
            assert(txs.subrange(0, w + 1 as int).contains(t@)) by {
                assert(txs.subrange(0, w + 1 as int)[w as int] == t@);
            }
        }
        let payload = match source.transactions.get(&t) {
            Some(p) => p,
            None => {
                // validated above: the transaction is present
                proof {
                    assert(false);
                }
                return Err(ExtractError::MissingTransaction(t));
            },
        };
        destination.transactions.insert(t, clone_record(payload));
        match source.finalized_approvals.get(&t) {
            Some(a) => {
                destination.finalized_approvals.insert(t, clone_record(a));
            },
            None => {},
        }
        let exec = match source.execution_results.get(&t) {
            Some(p) => p,
            None => {
                // validated above: the execution result is present
                proof {
                    assert(false);
                }
                return Err(ExtractError::MissingExecutionResult(t));
            },
        };
        destination.execution_results.insert(t, clone_record(exec));
        w += 1;
    }
    proof {
        assert(txs.subrange(0, ntx as int) =~= txs);
    }

    // copy the optional block-keyed records
    match source.transfers.get(&block_hash) {
        Some(v) => {
            destination.transfers.insert(block_hash, clone_record(v));
        },
        None => {},
    }
    match source.signatures.get(&block_hash) {
        Some(s) => {
            proof {
                assert(s.wf()) by {
                    let a = choose|a: int|
                        0 <= a < source.signatures.entries@.len()
                            && #[trigger] source.signatures.entries@[a].0@ == block_hash@
                            && source.signatures.entries@[a].1 == *s;
                    assert(source.signatures.entries@[a].1.wf());
                }
            }
            let copied = clone_signatures(s);
            destination.signatures.insert(block_hash, copied);
            proof {
                assert forall|a: int|
                    0 <= a < destination.signatures.entries@.len() implies (
                #[trigger] destination.signatures.entries@[a].1).wf() by {}
            }
        },
        None => {},
    }
    match source.approvals_hashes.get(&block_hash) {
        Some(v) => {
            destination.approvals_hashes.insert(block_hash, clone_record(v));
        },
        None => {},
    }
    Ok(block.header.state_root_hash)
}

/// Removes one block's records: the block's transactions and execution
/// results (when the block body is present), its transfers, signatures,
/// approvals hashes, and finally the block and its header. Fails, changing
/// nothing, when no header is stored under the hash.
pub fn remove_block(store: &mut RecordStore, block_hash: Digest) -> (r: Result<(), RemoveError>)
    requires
        old(store).wf(),
    ensures
        final(store).wf(),
        match r {
            Result::Ok(()) => {
                let had_block = old(store).blocks@.dom().contains(block_hash@);
                let txs = old(store).blocks@[block_hash@].transaction_hashes;
                &&& old(store).headers@.dom().contains(block_hash@)
                &&& final(store).headers@ =~= old(store).headers@.remove(block_hash@)
                &&& final(store).blocks@ =~= old(store).blocks@.remove(block_hash@)
                &&& final(store).transfers@ =~= old(store).transfers@.remove(block_hash@)
                &&& final(store).signatures@ =~= old(store).signatures@.remove(block_hash@)
                &&& final(store).approvals_hashes@ =~= old(store).approvals_hashes@.remove(
                    block_hash@,
                )
                &&& final(store).finalized_approvals@ == old(store).finalized_approvals@
                &&& forall|k: Seq<u8>|
                    #![trigger final(store).transactions@.dom().contains(k)]
                    #![trigger final(store).transactions@[k]]
                    {
                        &&& (final(store).transactions@.dom().contains(k) <==> (old(store).transactions@.dom().contains(k) && !(had_block && txs.contains(k))))
                        &&& (final(store).transactions@.dom().contains(k) ==> final(store).transactions@[k] == old(store).transactions@[k])
                    }
                &&& forall|k: Seq<u8>|
                    #![trigger final(store).execution_results@.dom().contains(k)]
                    #![trigger final(store).execution_results@[k]]
                    {
                        &&& (final(store).execution_results@.dom().contains(k) <==> (old(store).execution_results@.dom().contains(k) && !(had_block && txs.contains(
                            k,
                        ))))
                        &&& (final(store).execution_results@.dom().contains(k) ==> final(store).execution_results@[k] == old(store).execution_results@[k])
                    }
            },
            Result::Err(RemoveError::MissingHeader(d)) => {
                &&& d@ == block_hash@
                &&& !old(store).headers@.dom().contains(block_hash@)
                &&& *final(store) == *old(store)
            },
        },
{
    if !store.headers.contains_key(&block_hash) {
        return Err(RemoveError::MissingHeader(block_hash));
    }
    let ghost txs0 = store.blocks@[block_hash@].transaction_hashes;
    let has_block = store.blocks.contains_key(&block_hash);
    if has_block {
        let ntx = match store.blocks.get(&block_hash) {
            Some(b) => b.transaction_hashes.len(),
            None => 0,
        };
        let mut w: usize = 0;
        while w < ntx
            invariant
                store.headers.wf(),
                forall|i: int|
                    0 <= i < store.headers.entries@.len() ==> (
                    #[trigger] store.headers.entries@[i].1).wf(),
                store.blocks.wf(),
                forall|i: int|
                    0 <= i < store.blocks.entries@.len() ==> (
                    #[trigger] store.blocks.entries@[i].1).wf(),
                store.transactions.wf(),
                store.finalized_approvals.wf(),
                store.execution_results.wf(),
                store.transfers.wf(),
                store.signatures.wf(),
                forall|i: int|
                    0 <= i < store.signatures.entries@.len() ==> (
                    #[trigger] store.signatures.entries@[i].1).wf(),
                store.approvals_hashes.wf(),
                store.headers@ == old(store).headers@,
                store.blocks@ == old(store).blocks@,
                store.transfers@ == old(store).transfers@,
                store.signatures@ == old(store).signatures@,
                store.approvals_hashes@ == old(store).approvals_hashes@,
                store.finalized_approvals@ == old(store).finalized_approvals@,
                store.blocks@.dom().contains(block_hash@),
                txs0 == store.blocks@[block_hash@].transaction_hashes,
                w <= ntx,
                ntx == txs0.len(),
                forall|k: Seq<u8>|
                    #![trigger store.transactions@.dom().contains(k)]
                    #![trigger store.transactions@[k]]
                    {
                        &&& (store.transactions@.dom().contains(k) <==> (old(store).transactions@.dom().contains(k) && !txs0.subrange(0, w as int).contains(
                            k,
                        )))
                        &&& (store.transactions@.dom().contains(k) ==> store.transactions@[k]
                            == old(store).transactions@[k])
                    },
                forall|k: Seq<u8>|
                    #![trigger store.execution_results@.dom().contains(k)]
                    #![trigger store.execution_results@[k]]
                    {
                        &&& (store.execution_results@.dom().contains(k) <==> (old(store).execution_results@.dom().contains(k) && !txs0.subrange(
                            0,
                            w as int,
                        ).contains(k)))
                        &&& (store.execution_results@.dom().contains(k)
                            ==> store.execution_results@[k] == old(store).execution_results@[k])
                    },
            decreases ntx - w,
        {
            let t = match store.blocks.get(&block_hash) {
                Some(b) => b.transaction_hashes[w],
                None => {
                    // the loop runs only while the block is stored
                    proof {
                        assert(false);
                    }
                    return Err(RemoveError::MissingHeader(block_hash));
                },
            };
            proof {
                assert(txs0[w as int] == t@);
                assert(txs0.subrange(0, w + 1 as int) =~= txs0.subrange(0, w as int).push(t@));
                assert forall|k: Seq<u8>| #[trigger] txs0.subrange(0, w + 1 as int).contains(k)
                    implies txs0.subrange(0, w as int).contains(k) || k == t@ by {
                    let a = choose|a: int|
                        0 <= a < txs0.subrange(0, w + 1 as int).len() && #[trigger] txs0.subrange(
                            0,
                            w + 1 as int,
                        )[a] == k;
                    if a < w {
                        assert(txs0.subrange(0, w as int)[a] == k);
                    }
                }
                assert forall|k: Seq<u8>| txs0.subrange(0, w as int).contains(k)
                    implies txs0.subrange(0, w + 1 as int).contains(k) by {
                    let a = choose|a: int|
                        0 <= a < txs0.subrange(0, w as int).len() && #[trigger] txs0.subrange(
                            0,
                            w as int,
                        )[a] == k;
                    assert(txs0.subrange(0, w + 1 as int)[a] == k);
                }
                assert(txs0.subrange(0, w + 1 as int).contains(t@)) by {
                    assert(txs0.subrange(0, w + 1 as int)[w as int] == t@);
                }
            }
            store.transactions.remove(&t);
            store.execution_results.remove(&t);
            w += 1;
        }
        proof {
            assert(txs0.subrange(0, ntx as int) =~= txs0);
        }
    }
    store.transfers.remove(&block_hash);
    store.signatures.remove(&block_hash);
    store.approvals_hashes.remove(&block_hash);
    store.blocks.remove(&block_hash);
    store.headers.remove(&block_hash);
    Ok(())
}

} // verus!
