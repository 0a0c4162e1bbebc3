//! Block headers and blocks, modelled with the fields the toolkit reads.

use vstd::prelude::*;

use crate::digest::Digest;
use crate::maps::KvMap;
use crate::weights::WeightMap;

verus! {

/// A protocol version, ordered lexicographically.
#[derive(Clone, Copy, Debug, PartialEq, Eq, Structural)]
pub struct ProtocolVersion {
    pub major: u32,
    pub minor: u32,
    pub patch: u32,
}

/// `a` precedes `b` in the lexicographic order on versions.
pub open spec fn version_lt(a: ProtocolVersion, b: ProtocolVersion) -> bool {
    a.major < b.major || (a.major == b.major && (a.minor < b.minor || (a.minor == b.minor
        && a.patch < b.patch)))
}

impl ProtocolVersion {
    pub fn new(major: u32, minor: u32, patch: u32) -> (r: ProtocolVersion)
        ensures
            r == (ProtocolVersion { major, minor, patch }),
    {
        ProtocolVersion { major, minor, patch }
    }

    /// Strict lexicographic comparison.
    pub fn lt(&self, other: &ProtocolVersion) -> (r: bool)
        ensures
            r == version_lt(*self, *other),
    {
        self.major < other.major || (self.major == other.major && (self.minor < other.minor || (
        self.minor == other.minor && self.patch < other.patch)))
    }
}

/// A block header, with the fields the toolkit reads: identity, position in
/// the chain, and, on a switch block, the next era's validator weights.
pub struct BlockHeader {
    pub block_hash: Digest,
    pub state_root_hash: Digest,
    pub height: u64,
    pub era_id: u64,
    pub is_switch_block: bool,
    pub protocol_version: ProtocolVersion,
    pub next_era_validator_weights: Option<WeightMap>,
}

/// The mathematical value of a block header.
pub struct HeaderV {
    pub block_hash: Seq<u8>,
    pub state_root_hash: Seq<u8>,
    pub height: u64,
    pub era_id: u64,
    pub is_switch_block: bool,
    pub protocol_version: ProtocolVersion,
    pub next_era_validator_weights: Option<Map<u64, u128>>,
}

impl View for BlockHeader {
    type V = HeaderV;

    open spec fn view(&self) -> HeaderV {
        HeaderV {
            block_hash: self.block_hash@,
            state_root_hash: self.state_root_hash@,
            height: self.height,
            era_id: self.era_id,
            is_switch_block: self.is_switch_block,
            protocol_version: self.protocol_version,
            next_era_validator_weights: match self.next_era_validator_weights {
                Some(w) => Some(w@),
                None => None,
            },
        }
    }
}

impl BlockHeader {
    /// Well-formed: the era has a successor, and any weight table is
    /// itself well-formed.
    pub open spec fn wf(&self) -> bool {
        &&& self.era_id < u64::MAX
        &&& match self.next_era_validator_weights {
            Some(w) => w.wf(),
            None => true,
        }
    }
}

/// Copies a weight table.
pub fn clone_weight_map(w: &WeightMap) -> (r: WeightMap)
    requires
        w.wf(),
    ensures
        r.wf(),
        r@ == w@,
{
    let n = w.entries.entries.len();
    let mut entries: Vec<(u64, u128)> = Vec::new();
    let mut i: usize = 0;
    while i < n
        invariant
            i <= n,
            n == w.entries.entries@.len(),
            entries@ =~= w.entries.entries@.subrange(0, i as int),
        decreases n - i,
    {
        entries.push(w.entries.entries[i]);
        proof {
            assert(entries@ =~= w.entries.entries@.subrange(0, i + 1 as int));
        }
        i += 1;
    }
    proof {
        assert(entries@ =~= w.entries.entries@);
    }
    WeightMap { entries: KvMap { entries }, total: w.total }
}

/// Copies a block header.
pub fn clone_header(h: &BlockHeader) -> (r: BlockHeader)
    requires
        h.wf(),
    ensures
        r.wf(),
        r@ == h@,
{
    BlockHeader {
        block_hash: h.block_hash,
        state_root_hash: h.state_root_hash,
        height: h.height,
        era_id: h.era_id,
        is_switch_block: h.is_switch_block,
        protocol_version: h.protocol_version,
        next_era_validator_weights: match &h.next_era_validator_weights {
            Some(w) => Some(clone_weight_map(w)),
            None => None,
        },
    }
}

/// A block: its header together with the hashes of its transactions. The
/// body's other content is opaque to the toolkit.
pub struct Block {
    pub header: BlockHeader,
    pub transaction_hashes: Vec<Digest>,
}

/// The mathematical value of a block.
pub struct BlockV {
    pub header: HeaderV,
    pub transaction_hashes: Seq<Seq<u8>>,
}

impl View for Block {
    type V = BlockV;

    open spec fn view(&self) -> BlockV {
        BlockV {
            header: self.header@,
            transaction_hashes: self.transaction_hashes@.map_values(|d: Digest| d@),
        }
    }
}

impl Block {
    pub open spec fn wf(&self) -> bool {
        self.header.wf()
    }
}

/// Copies a block.
pub fn clone_block(b: &Block) -> (r: Block)
    requires
        b.wf(),
    ensures
        r.wf(),
        r@ == b@,
{
    let n = b.transaction_hashes.len();
    let mut hashes: Vec<Digest> = Vec::new();
    let mut i: usize = 0;
    while i < n
        invariant
            i <= n,
            n == b.transaction_hashes@.len(),
            hashes@ =~= b.transaction_hashes@.subrange(0, i as int),
        decreases n - i,
    {
        hashes.push(b.transaction_hashes[i]);
        proof {
            assert(hashes@ =~= b.transaction_hashes@.subrange(0, i + 1 as int));
        }
        i += 1;
    }
    proof {
        assert(hashes@ =~= b.transaction_hashes@);
        assert(hashes@.map_values(|d: Digest| d@) =~= b.transaction_hashes@.map_values(
            |d: Digest| d@,
        ));
    }
    Block { header: clone_header(&b.header), transaction_hashes: hashes }
}

} // verus!
