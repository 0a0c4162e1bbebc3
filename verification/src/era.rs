//! The era weight cache: a single-entry cache resolving an era to its
//! validator weight table through the chain indexer's lookup tables.

use vstd::prelude::*;

use crate::block::{clone_weight_map, BlockHeader, HeaderV};
use crate::digest::Digest;
use crate::indices::{Error, Indices};
use crate::maps::DigestMap;
use crate::weights::WeightMap;

verus! {

/// Why an era's weights could not be resolved.
pub enum ResolveFailure {
    /// No switch block is recorded for the era, or the recorded switch
    /// block carries no weight table.
    MissingEraWeights(u64),
    /// The recorded switch block's header is missing from the store.
    MissingBlockHeader(Seq<u8>),
}

/// Every header held in the store is well-formed.
pub open spec fn header_store_wf(headers: DigestMap<BlockHeader>) -> bool {
    &&& headers.wf()
    &&& forall|i: int|
        0 <= i < headers.entries@.len() ==> (#[trigger] headers.entries@[i].1).wf()
}

/// What looking up the weights for `era` yields: the weight table of the
/// era's recorded switch block together with the flag that marks the table
/// as computed before a protocol upgrade, or the failure that the lookup
/// runs into.
pub open spec fn resolve_weights(
    indices: Indices,
    headers: Map<Seq<u8>, HeaderV>,
    era: u64,
) -> Result<(Map<u64, u128>, bool), ResolveFailure> {
    if !indices.switch_blocks@.dom().contains(era) {
        Err(ResolveFailure::MissingEraWeights(era))
    } else {
        let hash = indices.switch_blocks@[era];
        if !headers.dom().contains(hash) {
            Err(ResolveFailure::MissingBlockHeader(hash))
        } else {
            match headers[hash].next_era_validator_weights {
                None => Err(ResolveFailure::MissingEraWeights(era)),
                Some(w) => Ok(
                    (w, indices.switch_blocks_before_upgrade@.contains(headers[hash].height)),
                ),
            }
        }
    }
}

/// The cache entry: one era's weight table and its staleness flag.
pub struct CachedEra {
    pub era_id: u64,
    pub weights: WeightMap,
    pub after_upgrade: bool,
}

/// Single-entry cache for the validator weights of an era.
pub struct EraWeights {
    pub cached: Option<CachedEra>,
}

impl EraWeights {
    /// The cache never contradicts the stores it was filled from.
    pub open spec fn coherent(
        &self,
        indices: Indices,
        headers: Map<Seq<u8>, HeaderV>,
    ) -> bool {
        match self.cached {
            None => true,
            Some(c) => c.weights.wf() && resolve_weights(indices, headers, c.era_id) == Ok::<
                _,
                ResolveFailure,
            >((c.weights@, c.after_upgrade)),
        }
    }

    pub fn new() -> (r: EraWeights)
        ensures
            r.cached is None,
    {
        EraWeights { cached: None }
    }

    /// The cached era, or the genesis era when nothing is cached yet.
    pub fn era_id(&self) -> (r: u64)
        ensures
            r == match self.cached {
                Some(c) => c.era_id,
                None => 0u64,
            },
    {
        match &self.cached {
            Some(c) => c.era_id,
            None => 0,
        }
    }

    /// The cached weight table.
    pub fn weights(&self) -> (r: Option<&WeightMap>)
        ensures
            match r {
                Some(w) => self.cached is Some && *w == self.cached->Some_0.weights,
                None => self.cached is None,
            },
    {
        match &self.cached {
            Some(c) => Some(&c.weights),
            None => None,
        }
    }

    /// Makes the cache hold the weights for `era_id`, reading the era's
    /// switch block through the lookup tables unless the cache already
    /// holds that era. Returns whether the weight table came from a switch
    /// block right before a protocol upgrade — such a table may be stale.
    /// On failure the cache is left as it was.
    pub fn refresh_weights_for_era(
        &mut self,
        headers: &DigestMap<BlockHeader>,
        indices: &Indices,
        era_id: u64,
    ) -> (r: Result<bool, Error>)
        requires
            old(self).coherent(*indices, headers@),
            indices.wf(),
            header_store_wf(*headers),
        ensures
            final(self).coherent(*indices, headers@),
            match resolve_weights(*indices, headers@, era_id) {
                Ok((w, flag)) => {
                    &&& r == Ok::<bool, Error>(flag)
                    &&& final(self).cached is Some
                    &&& final(self).cached->Some_0.era_id == era_id
                    &&& final(self).cached->Some_0.weights@ == w
                    &&& final(self).cached->Some_0.weights.wf()
                    &&& final(self).cached->Some_0.after_upgrade == flag
                },
                Err(ResolveFailure::MissingEraWeights(e)) => {
                    &&& r == Err::<bool, Error>(Error::MissingEraWeights(e))
                    &&& *final(self) == *old(self)
                },
                Err(ResolveFailure::MissingBlockHeader(h)) => {
                    &&& match r {
                        Err(Error::MissingBlockHeader(d)) => d@ == h,
                        _ => false,
                    }
                    &&& *final(self) == *old(self)
                },
            },
    {
        let cached_hit = match &self.cached {
            Some(c) => c.era_id == era_id,
            None => false,
        };
        if cached_hit {
            let flag = match &self.cached {
                Some(c) => c.after_upgrade,
                None => false,
            };
            return Ok(flag);
        }
        let switch_block_hash = match indices.switch_blocks.get(era_id) {
            Some(h) => *h,
            None => {
                return Err(Error::MissingEraWeights(era_id));
            },
        };
        let header = match headers.get(&switch_block_hash) {
            Some(h) => h,
            None => {
                return Err(Error::MissingBlockHeader(switch_block_hash));
            },
        };
        proof {
            assert(header.wf()) by {
                let i = choose|i: int|
                    0 <= i < headers.entries@.len() && #[trigger] headers.entries@[i].0@
                        == switch_block_hash@ && headers.entries@[i].1 == *header;
                assert(headers.entries@[i].1.wf());
            }
        }
        let after_upgrade = indices.is_before_upgrade(header.height);
        match &header.next_era_validator_weights {
            None => Err(Error::MissingEraWeights(era_id)),
            Some(w) => {
                let weights = clone_weight_map(w);
                self.cached = Some(CachedEra { era_id, weights, after_upgrade });
                Ok(after_upgrade)
            },
        }
    }
}

} // verus!
