//! The purge orchestrator: drives the indexer, the era weight cache and
//! the weight-reduction engine across a batch of block heights, deleting or
//! rewriting signature records. The whole batch is all or nothing: a fatal
//! error leaves the signature store untouched.

use vstd::prelude::*;

use crate::block::BlockHeader;
use crate::digest::Digest;
use crate::era::{header_store_wf, resolve_weights, EraWeights, ResolveFailure};
use crate::indices::{Error, Indices};
use crate::maps::{DigestMap, KvMap};
use crate::signatures::{strip_outcome, strip_signatures, BlockSignatures, SigRecordV};

verus! {

/// Every signature record held in the store is well-formed.
pub open spec fn sig_store_wf(store: DigestMap<BlockSignatures>) -> bool {
    &&& store.wf()
    &&& forall|i: int| 0 <= i < store.entries@.len() ==> (#[trigger] store.entries@[i].1).wf()
}

/// What purging one height does to the signature store: an absent height,
/// a genesis-era block and a block without a signature record are skipped;
/// unresolvable era weights are fatal; otherwise the record is deleted
/// outright (full purge) or rewritten as the weight-reduction engine
/// decides.
pub open spec fn purge_one(
    store: Map<Seq<u8>, SigRecordV>,
    indices: Indices,
    headers: Map<Seq<u8>, crate::block::HeaderV>,
    height: u64,
    full_purge: bool,
) -> Result<Map<Seq<u8>, SigRecordV>, ResolveFailure> {
    if !indices.heights@.dom().contains(height) {
        Ok(store)
    } else {
        let entry = indices.heights@[height];
        if entry.header.era_id == 0 {
            Ok(store)
        } else {
            match resolve_weights(indices, headers, entry.header.era_id) {
                Err(e) => Err(e),
                Ok((w, _flag)) => {
                    if !store.dom().contains(entry.block_hash) {
                        Ok(store)
                    } else if full_purge {
                        Ok(store.remove(entry.block_hash))
                    } else {
                        match strip_outcome(store[entry.block_hash].proofs, w) {
                            None => Ok(store),
                            Some(m) => Ok(
                                store.insert(
                                    entry.block_hash,
                                    SigRecordV {
                                        block_hash: store[entry.block_hash].block_hash,
                                        era_id: store[entry.block_hash].era_id,
                                        proofs: m,
                                    },
                                ),
                            ),
                        }
                    }
                },
            }
        }
    }
}

/// The effect of purging the listed heights in order; the first fatal
/// failure wins.
pub open spec fn purge_fold(
    store: Map<Seq<u8>, SigRecordV>,
    indices: Indices,
    headers: Map<Seq<u8>, crate::block::HeaderV>,
    heights: Seq<u64>,
    full_purge: bool,
) -> Result<Map<Seq<u8>, SigRecordV>, ResolveFailure>
    decreases heights.len(),
{
    if heights.len() == 0 {
        Ok(store)
    } else {
        match purge_fold(store, indices, headers, heights.drop_last(), full_purge) {
            Err(e) => Err(e),
            Ok(st) => purge_one(st, indices, headers, heights.last(), full_purge),
        }
    }
}

/// Copies a signature record.
pub fn clone_signatures(s: &BlockSignatures) -> (r: BlockSignatures)
    requires
        s.wf(),
    ensures
        r.wf(),
        r@ == s@,
{
    let n = s.proofs.entries.len();
    let mut entries: Vec<(u64, u64)> = Vec::new();
    let mut i: usize = 0;
    while i < n
        invariant
            i <= n,
            n == s.proofs.entries@.len(),
            entries@ =~= s.proofs.entries@.subrange(0, i as int),
        decreases n - i,
    {
        entries.push(s.proofs.entries[i]);
        proof {
            assert(entries@ =~= s.proofs.entries@.subrange(0, i + 1 as int));
        }
        i += 1;
    }
    proof {
        assert(entries@ =~= s.proofs.entries@);
    }
    BlockSignatures { block_hash: s.block_hash, era_id: s.era_id, proofs: KvMap { entries } }
}

/// Copies a signature store.
fn clone_sig_store(store: &DigestMap<BlockSignatures>) -> (r: DigestMap<BlockSignatures>)
    requires
        sig_store_wf(*store),
    ensures
        sig_store_wf(r),
        r@ =~= store@,
{
    let n = store.entries.len();
    let mut entries: Vec<(Digest, BlockSignatures)> = Vec::new();
    let mut i: usize = 0;
    while i < n
        invariant
            sig_store_wf(*store),
            i <= n,
            n == store.entries@.len(),
            entries@.len() == i,
            forall|a: int|
                0 <= a < i ==> (#[trigger] entries@[a]).0@ == store.entries@[a].0@
                    && entries@[a].1@ == store.entries@[a].1@ && entries@[a].1.wf(),
        decreases n - i,
    {
        let d = store.entries[i].0;
        let s = clone_signatures(&store.entries[i].1);
        entries.push((d, s));
        i += 1;
    }
    let r = DigestMap { entries };
    proof {
        assert(r.wf());
        lemma_cloned_entries_same_map(r.entries@, store.entries@);
    }
    r
}

/// Two entry lists with pairwise view-equal entries describe one map.
proof fn lemma_cloned_entries_same_map(
    a: Seq<(Digest, BlockSignatures)>,
    b: Seq<(Digest, BlockSignatures)>,
)
    requires
        a.len() == b.len(),
        forall|i: int|
            0 <= i < a.len() ==> (#[trigger] a[i]).0@ == b[i].0@ && a[i].1@ == b[i].1@,
    ensures
        crate::maps::digest_map_of(a) =~= crate::maps::digest_map_of(b),
    decreases a.len(),
{
    if a.len() > 0 {
        assert forall|i: int|
            0 <= i < a.drop_last().len() implies (#[trigger] a.drop_last()[i]).0@
            == b.drop_last()[i].0@ && a.drop_last()[i].1@ == b.drop_last()[i].1@ by {
            assert(a.drop_last()[i] == a[i] && b.drop_last()[i] == b[i]);
        }
        lemma_cloned_entries_same_map(a.drop_last(), b.drop_last());
        assert(a.last() == a[a.len() - 1] && b.last() == b[b.len() - 1]);
    }
}

/// Once one height fails, the whole batch fails with that failure.
proof fn lemma_purge_fold_error(
    store: Map<Seq<u8>, SigRecordV>,
    indices: Indices,
    headers: Map<Seq<u8>, crate::block::HeaderV>,
    heights: Seq<u64>,
    i: int,
    full_purge: bool,
    st: Map<Seq<u8>, SigRecordV>,
    e: ResolveFailure,
)
    requires
        0 <= i < heights.len(),
        purge_fold(store, indices, headers, heights.subrange(0, i), full_purge) == Ok::<
            Map<Seq<u8>, SigRecordV>,
            ResolveFailure,
        >(st),
        purge_one(st, indices, headers, heights[i], full_purge) == Err::<
            Map<Seq<u8>, SigRecordV>,
            ResolveFailure,
        >(e),
    ensures
        purge_fold(store, indices, headers, heights, full_purge) == Err::<
            Map<Seq<u8>, SigRecordV>,
            ResolveFailure,
        >(e),
    decreases heights.len(),
{
    if i == heights.len() - 1 {
        assert(heights.subrange(0, i) =~= heights.drop_last());
        assert(heights.last() == heights[i]);
    } else {
        assert(heights.drop_last().subrange(0, i) =~= heights.subrange(0, i));
        assert(heights.drop_last()[i] == heights[i]);
        lemma_purge_fold_error(store, indices, headers, heights.drop_last(), i, full_purge, st, e);
    }
}

/// Purges finality signatures for every block whose height is listed.

///
/// A listed height that the lookup tables do not know, a genesis-era
/// block, and a block without a signature record are skipped. For the
/// rest, under a full purge the record is deleted; otherwise the
/// weight-reduction engine rewrites it when it can reach the
/// weak-but-not-strict band and leaves it untouched when it cannot. A
/// missing weight table is fatal, and a fatal error leaves the store
/// exactly as it was: the batch is all or nothing. An empty height list is
/// rejected.
pub fn purge_signatures_for_blocks(
    sig_store: &mut DigestMap<BlockSignatures>,
    headers: &DigestMap<BlockHeader>,
    indices: &Indices,
    heights_to_visit: &Vec<u64>,
    full_purge: bool,
) -> (r: Result<(), Error>)
    requires
        sig_store_wf(*old(sig_store)),
        header_store_wf(*headers),
        indices.wf(),
    ensures
        sig_store_wf(*final(sig_store)),
        heights_to_visit@.len() == 0 ==> (r == Err::<(), Error>(Error::EmptyBlockList)
            && *final(sig_store) == *old(sig_store)),
        heights_to_visit@.len() > 0 ==> (match purge_fold(
            old(sig_store)@,
            *indices,
            headers@,
            heights_to_visit@,
            full_purge,
        ) {
            Ok(m) => r == Ok::<(), Error>(()) && final(sig_store)@ =~= m,
            Err(ResolveFailure::MissingEraWeights(e)) => r == Err::<(), Error>(
                Error::MissingEraWeights(e),
            ) && *final(sig_store) == *old(sig_store),
            Err(ResolveFailure::MissingBlockHeader(h)) => (match r {
                Err(Error::MissingBlockHeader(d)) => d@ == h,
                _ => false,
            }) && *final(sig_store) == *old(sig_store),
        }),
{
    let n = heights_to_visit.len();
    if n == 0 {
        return Err(Error::EmptyBlockList);
    }
    let ghost store0 = sig_store@;
    let mut work = clone_sig_store(sig_store);
    let mut era_weights = EraWeights::new();
    let mut i: usize = 0;
    while i < n
        invariant
            sig_store_wf(*sig_store),
            sig_store@ == store0,
            *sig_store == *old(sig_store),
            header_store_wf(*headers),
            indices.wf(),
            i <= n,
            n == heights_to_visit@.len(),
            sig_store_wf(work),
            era_weights.coherent(*indices, headers@),
            purge_fold(store0, *indices, headers@, heights_to_visit@.subrange(0, i as int), full_purge)
                == Ok::<Map<Seq<u8>, SigRecordV>, ResolveFailure>(work@),
        decreases n - i,
    {
        let height = heights_to_visit[i];
        let ghost pre = heights_to_visit@.subrange(0, i as int);
        let ghost post = heights_to_visit@.subrange(0, i + 1 as int);
        proof {
            assert(post.drop_last() =~= pre);
            assert(post.last() == heights_to_visit@[i as int]);
        }
        match indices.heights.get(height) {
            None => {
                proof {
                    assert(purge_one(work@, *indices, headers@, height, full_purge) == Ok::<
                        Map<Seq<u8>, SigRecordV>,
                        ResolveFailure,
                    >(work@));
                }
            },
            Some(entry) => {
                if entry.header.era_id == 0 {
                    proof {
                        assert(indices.heights@[height] == entry@);
                    }
                } else {
                    proof {
                        assert(indices.heights@[height] == entry@);
                    }
                    let era = entry.header.era_id;
                    match era_weights.refresh_weights_for_era(headers, indices, era) {
                        Err(e) => {
                            proof {
                                match resolve_weights(*indices, headers@, era) {
                                    Ok(_) => {
                                        assert(false);
                                    },
                                    Err(rf) => {
                                        assert(purge_one(
                                            work@,
                                            *indices,
                                            headers@,
                                            height,
                                            full_purge,
                                        ) == Err::<Map<Seq<u8>, SigRecordV>, ResolveFailure>(rf));
                                        lemma_purge_fold_error(
                                            store0,
                                            *indices,
                                            headers@,
                                            heights_to_visit@,
                                            i as int,
                                            full_purge,
                                            work@,
                                            rf,
                                        );
                                    },
                                }
                            }
                            return Err(e);
                        },
                        Ok(_after_upgrade) => {},
                    }
                    let block_hash = entry.block_hash;
                    let has_record = work.contains_key(&block_hash);
                    if !has_record {
                        proof {
                            assert(!work@.dom().contains(entry@.block_hash));
                        }
                    } else if full_purge {
                        work.remove(&block_hash);
                    } else {
                        let record = match work.get(&block_hash) {
                            Some(rec) => rec,
                            None => {
                                // the store was just seen to hold the record
                                proof {
                                    assert(false);
                                }
                                return Err(Error::EmptyBlockList);
                            },
                        };
                        proof {
                            assert(record.wf()) by {
                                let a = choose|a: int|
                                    0 <= a < work.entries@.len() && #[trigger] work.entries@[a].0@
                                        == block_hash@ && work.entries@[a].1 == *record;
                                assert(work.entries@[a].1.wf());
                            }
                        }
                        let mut stripped = clone_signatures(record);
                        let weights = match era_weights.weights() {
                            Some(w) => w,
                            None => {
                                // the refresh above filled the cache
                                proof {
                                    assert(false);
                                }
                                return Err(Error::EmptyBlockList);
                            },
                        };
                        let changed = strip_signatures(&mut stripped, weights);
                        if changed {
                            work.insert(block_hash, stripped);
                        }
                    }
                }
            },
        }
        i += 1;
    }
    proof {
        assert(heights_to_visit@.subrange(0, n as int) =~= heights_to_visit@);
    }
    *sig_store = work;
    Ok(())
}

} // verus!
