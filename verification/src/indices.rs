//! The chain indexer: one forward scan of the header chain producing the
//! lookup tables that the signature purge needs.

use vstd::prelude::*;

use crate::block::{clone_header, version_lt, BlockHeader, HeaderV};
use crate::digest::Digest;
use crate::maps::KvMap;

verus! {

/// Errors of the signature-purge subsystem.
#[derive(Debug)]
pub enum Error {
    /// No heights were given to purge.
    EmptyBlockList,
    /// The block header store holds no blocks at all.
    EmptyDatabase,
    /// Two stored headers claim one requested height.
    DuplicateBlock(u64),
    /// No switch block carries weights for the era.
    MissingEraWeights(u64),
    /// A switch block named by the lookup tables is missing from the store.
    MissingBlockHeader(Digest),
}

/// A block hash with its header, the value of the height lookup table.
pub struct HeightEntry {
    pub block_hash: Digest,
    pub header: BlockHeader,
}

/// The mathematical value of a height entry.
pub struct HeightEntryV {
    pub block_hash: Seq<u8>,
    pub header: HeaderV,
}

impl View for HeightEntry {
    type V = HeightEntryV;

    open spec fn view(&self) -> HeightEntryV {
        HeightEntryV { block_hash: self.block_hash@, header: self.header@ }
    }
}

/// Lookup tables over one scan of the header chain: the requested heights
/// with their headers, each era's switch block, and the heights of switch
/// blocks superseded by a protocol upgrade.
pub struct Indices {
    pub heights: KvMap<HeightEntry>,
    pub switch_blocks: KvMap<Digest>,
    pub switch_blocks_before_upgrade: Vec<u64>,
}

impl Indices {
    pub open spec fn wf(&self) -> bool {
        &&& self.heights.wf()
        &&& self.switch_blocks.wf()
        &&& forall|i: int|
            0 <= i < self.heights.entries@.len() ==> (#[trigger] self.heights.entries@[i].1).header.wf()
    }

    /// Whether `height` is the height of a switch block that an upgrade
    /// superseded.
    pub fn is_before_upgrade(&self, height: u64) -> (r: bool)
        ensures
            r == self.switch_blocks_before_upgrade@.contains(height),
    {
        let n = self.switch_blocks_before_upgrade.len();
        let mut i: usize = 0;
        while i < n
            invariant
                i <= n,
                n == self.switch_blocks_before_upgrade@.len(),
                forall|j: int| 0 <= j < i ==> self.switch_blocks_before_upgrade@[j] != height,
            decreases n - i,
        {
            if self.switch_blocks_before_upgrade[i] == height {
                return true;
            }
            i += 1;
        }
        false
    }
}

/// The header at scan position `i` repeats a requested height that an
/// earlier header already claimed.
pub open spec fn dup_at(headers: Seq<HeaderV>, needed: Seq<u64>, i: int) -> bool {
    &&& 0 <= i < headers.len()
    &&& needed.contains(headers[i].height)
    &&& exists|j: int| 0 <= j < i && #[trigger] headers[j].height == headers[i].height
}

/// Some scanned switch block carries the weights for `era`.
pub open spec fn has_switch_for(headers: Seq<HeaderV>, era: u64) -> bool {
    exists|i: int|
        0 <= i < headers.len() && (#[trigger] headers[i]).is_switch_block && headers[i].era_id + 1
            == era
}

/// `hash` names the last scanned switch block carrying the weights for
/// `era`.
pub open spec fn switch_block_for(headers: Seq<HeaderV>, era: u64, hash: Seq<u8>) -> bool {
    exists|i: int|
        #![trigger headers[i]]
        {
            &&& 0 <= i < headers.len()
            &&& headers[i].is_switch_block
            &&& headers[i].era_id + 1 == era
            &&& headers[i].block_hash == hash
            &&& forall|j: int|
                i < j < headers.len() ==> !((#[trigger] headers[j]).is_switch_block
                    && headers[j].era_id + 1 == era)
        }
}

/// `h` is the height of the last switch block of a protocol version that a
/// later switch block's version supersedes.
pub open spec fn before_upgrade_height(headers: Seq<HeaderV>, h: u64) -> bool {
    exists|i: int|
        #![trigger headers[i]]
        {
            &&& 0 <= i < headers.len()
            &&& headers[i].is_switch_block
            &&& headers[i].height == h
            &&& forall|j: int|
                0 <= j < headers.len() && (#[trigger] headers[j]).is_switch_block
                    && headers[j].protocol_version == headers[i].protocol_version
                    ==> headers[j].height <= h
            &&& exists|j: int|
                0 <= j < headers.len() && (#[trigger] headers[j]).is_switch_block && version_lt(
                    headers[i].protocol_version,
                    headers[j].protocol_version,
                )
        }
}

/// The scanned headers as mathematical values.
pub open spec fn header_views(headers: Seq<BlockHeader>) -> Seq<HeaderV> {
    headers.map_values(|h: BlockHeader| h@)
}

/// Scans the stored headers once, in storage order, and builds the lookup
/// tables for the requested heights.
///
/// Every requested height that a header claims is recorded with that
/// header; a second header claiming a requested height is a data-integrity
/// violation and aborts the scan. Every switch block is recorded under the
/// era its weights belong to, the last scanned one winning. A switch
/// block's height enters `switch_blocks_before_upgrade` exactly when it is
/// the highest switch block of its protocol version and some later version
/// appears on another switch block.
pub fn initialize_indices(headers: &Vec<BlockHeader>, needed_heights: &Vec<u64>) -> (r: Result<
    Indices,
    Error,
>)
    requires
        forall|i: int| 0 <= i < headers@.len() ==> (#[trigger] headers@[i]).wf(),
    ensures
        match r {
            Result::Ok(ind) => {
                let hv = header_views(headers@);
                &&& ind.wf()
                &&& headers@.len() > 0
                &&& forall|i: int| !dup_at(hv, needed_heights@, i)
                &&& forall|h: u64|
                    #[trigger] ind.heights@.dom().contains(h) <==> (needed_heights@.contains(h)
                        && exists|i: int|
                        0 <= i < hv.len() && (#[trigger] hv[i]).height == h)
                &&& forall|h: u64|
                    #[trigger] ind.heights@.dom().contains(h) ==> exists|i: int|
                        #![trigger hv[i]]
                        0 <= i < hv.len() && hv[i].height == h && ind.heights@[h].block_hash
                            == hv[i].block_hash && ind.heights@[h].header == hv[i]
                &&& forall|e: u64|
                    #[trigger] ind.switch_blocks@.dom().contains(e) <==> has_switch_for(hv, e)
                &&& forall|e: u64|
                    #[trigger] ind.switch_blocks@.dom().contains(e) ==> switch_block_for(
                        hv,
                        e,
                        ind.switch_blocks@[e],
                    )
                &&& forall|h: u64|
                    #[trigger] ind.switch_blocks_before_upgrade@.contains(h)
                        <==> before_upgrade_height(hv, h)
            },
            Result::Err(Error::EmptyDatabase) => headers@.len() == 0,
            Result::Err(Error::DuplicateBlock(h)) => {
                let hv = header_views(headers@);
                exists|i: int|
                    #![trigger hv[i]]
                    dup_at(hv, needed_heights@, i) && hv[i].height == h && forall|k: int|
                        0 <= k < i ==> !dup_at(hv, needed_heights@, k)
            },
            Result::Err(_) => false,
        },
{
    let ghost hv = header_views(headers@);
    let n = headers.len();
    if n == 0 {
        return Err(Error::EmptyDatabase);
    }
    let mut heights: KvMap<HeightEntry> = KvMap::new();
    let mut switch_blocks: KvMap<Digest> = KvMap::new();

    let mut i: usize = 0;
    while i < n
        invariant
            forall|a: int| 0 <= a < headers@.len() ==> (#[trigger] headers@[a]).wf(),
            hv == header_views(headers@),
            i <= n,
            n == headers@.len(),
            heights.wf(),
            switch_blocks.wf(),
            forall|a: int|
                0 <= a < heights.entries@.len() ==> (#[trigger] heights.entries@[a].1).header.wf(),
            forall|k: int| 0 <= k < i ==> !dup_at(hv, needed_heights@, k),
            forall|h: u64|
                #[trigger] heights@.dom().contains(h) <==> (needed_heights@.contains(h) && exists|
                    a: int,
                | 0 <= a < i && (#[trigger] hv[a]).height == h),
            forall|h: u64|
                #[trigger] heights@.dom().contains(h) ==> exists|a: int|
                    #![trigger hv[a]]
                    0 <= a < i && hv[a].height == h && heights@[h].block_hash == hv[a].block_hash
                        && heights@[h].header == hv[a],
            forall|e: u64|
                #[trigger] switch_blocks@.dom().contains(e) <==> (exists|a: int|
                    0 <= a < i && (#[trigger] hv[a]).is_switch_block && hv[a].era_id + 1 == e),
            forall|e: u64|
                #[trigger] switch_blocks@.dom().contains(e) ==> exists|a: int|
                    #![trigger hv[a]]
                    {
                        &&& 0 <= a < i
                        &&& hv[a].is_switch_block
                        &&& hv[a].era_id + 1 == e
                        &&& hv[a].block_hash == switch_blocks@[e]
                        &&& forall|b: int|
                            a < b < i ==> !((#[trigger] hv[b]).is_switch_block && hv[b].era_id + 1
                                == e)
                    },
        decreases n - i,
    {
        let header = &headers[i];
        proof {
            assert(hv[i as int] == header@);
        }
        if header.is_switch_block {
            let era = header.era_id + 1;
            let ghost sb_pre = switch_blocks@;
            switch_blocks.insert(era, header.block_hash);
            proof {
                assert forall|e: u64| #[trigger] switch_blocks@.dom().contains(e) implies exists|
                    a: int,
                |
                    #![trigger hv[a]]
                    {
                        &&& 0 <= a < i + 1
                        &&& hv[a].is_switch_block
                        &&& hv[a].era_id + 1 == e
                        &&& hv[a].block_hash == switch_blocks@[e]
                        &&& forall|b: int|
                            a < b < i + 1 ==> !((#[trigger] hv[b]).is_switch_block && hv[b].era_id
                                + 1 == e)
                    } by {
                    if e == era {
                        assert(hv[i as int].is_switch_block && hv[i as int].era_id + 1 == e
                            && hv[i as int].block_hash == switch_blocks@[e]);
                    } else {
                        assert(sb_pre.dom().contains(e));
                        let a = choose|a: int|
                            #![trigger hv[a]]
                            {
                                &&& 0 <= a < i
                                &&& hv[a].is_switch_block
                                &&& hv[a].era_id + 1 == e
                                &&& hv[a].block_hash == sb_pre[e]
                                &&& forall|b: int|
                                    a < b < i ==> !((#[trigger] hv[b]).is_switch_block
                                        && hv[b].era_id + 1 == e)
                            };
                        assert(hv[a].is_switch_block && hv[a].era_id + 1 == e && hv[a].block_hash
                            == switch_blocks@[e]);
                        assert forall|b: int| a < b < i + 1 implies !((
                        #[trigger] hv[b]).is_switch_block && hv[b].era_id + 1 == e) by {
                            if b == i {
                                assert(hv[i as int].era_id + 1 == era);
                            }
                        }
                    }
                }
            }
        }
        let height = header.height;
        let mut is_needed = false;
        let nn = needed_heights.len();
        let mut q: usize = 0;
        while q < nn
            invariant
                q <= nn,
                nn == needed_heights@.len(),
                is_needed ==> needed_heights@.contains(height),
                !is_needed ==> forall|b: int| 0 <= b < q ==> needed_heights@[b] != height,
            decreases nn - q,
        {
            if needed_heights[q] == height {
                is_needed = true;
            }
            q += 1;
        }
        if is_needed {
            if heights.contains_key(height) {
                proof {
                    let a = choose|a: int| 0 <= a < i && (#[trigger] hv[a]).height == height;
                    assert(dup_at(hv, needed_heights@, i as int));
                    assert forall|k: int| 0 <= k < i as int implies !dup_at(
                        hv,
                        needed_heights@,
                        k,
                    ) by {}
                }
                return Err(Error::DuplicateBlock(height));
            }
            let entry = HeightEntry { block_hash: header.block_hash, header: clone_header(header) };
            let ghost hpre = heights@;
            let ghost hentries_pre = heights.entries@;
            heights.insert(height, entry);
            proof {
                assert forall|a: int|
                    0 <= a < heights.entries@.len() implies (
                #[trigger] heights.entries@[a].1).header.wf() by {
                    if heights.entries@[a] != (height, entry) {
                        assert(hentries_pre.contains(heights.entries@[a]));
                        let b = choose|b: int|
                            0 <= b < hentries_pre.len() && hentries_pre[b] == heights.entries@[a];
                        assert(hentries_pre[b].1.header.wf());
                    }
                }
                assert forall|h: u64| #[trigger] heights@.dom().contains(h) implies (
                needed_heights@.contains(h) && exists|a: int|
                    0 <= a < i + 1 && (#[trigger] hv[a]).height == h) by {
                    if h == height {
                        assert(hv[i as int].height == h);
                    } else {
                        let a = choose|a: int| 0 <= a < i && (#[trigger] hv[a]).height == h;
                        assert(hv[a].height == h);
                    }
                }
                assert forall|h: u64| (needed_heights@.contains(h) && exists|a: int|
                    0 <= a < i + 1 && (#[trigger] hv[a]).height == h) implies heights@.dom().contains(
                    h,
                ) by {
                    if h != height {
                        let a = choose|a: int| 0 <= a < i + 1 && (#[trigger] hv[a]).height == h;
                        assert(a < i);
                    }
                }
                assert forall|h: u64| #[trigger] heights@.dom().contains(h) implies exists|a: int|
                    #![trigger hv[a]]
                    0 <= a < i + 1 && hv[a].height == h && heights@[h].block_hash
                        == hv[a].block_hash && heights@[h].header == hv[a] by {
                    if h == height {
                        assert(hv[i as int].height == h && heights@[h].block_hash
                            == hv[i as int].block_hash && heights@[h].header == hv[i as int]);
                    } else {
                        assert(hpre.dom().contains(h));
                        let a = choose|a: int|
                            #![trigger hv[a]]
                            0 <= a < i && hv[a].height == h && hpre[h].block_hash
                                == hv[a].block_hash && hpre[h].header == hv[a];
                        assert(heights@[h] == hpre[h]);
                        assert(hv[a].height == h && heights@[h].block_hash == hv[a].block_hash
                            && heights@[h].header == hv[a]);
                    }
                }
            }
        } else {
            proof {
                assert forall|h: u64| #[trigger] heights@.dom().contains(h) implies (
                needed_heights@.contains(h) && exists|a: int|
                    0 <= a < i + 1 && (#[trigger] hv[a]).height == h) by {
                    let a = choose|a: int| 0 <= a < i && (#[trigger] hv[a]).height == h;
                    assert(hv[a].height == h);
                }
                assert forall|h: u64| (needed_heights@.contains(h) && exists|a: int|
                    0 <= a < i + 1 && (#[trigger] hv[a]).height == h) implies heights@.dom().contains(
                    h,
                ) by {
                    let a = choose|a: int| 0 <= a < i + 1 && (#[trigger] hv[a]).height == h;
                    assert(a != i);
                }
                assert forall|h: u64| #[trigger] heights@.dom().contains(h) implies exists|a: int|
                    #![trigger hv[a]]
                    0 <= a < i + 1 && hv[a].height == h && heights@[h].block_hash
                        == hv[a].block_hash && heights@[h].header == hv[a] by {
                    let a = choose|a: int|
                        #![trigger hv[a]]
                        0 <= a < i && hv[a].height == h && heights@[h].block_hash
                            == hv[a].block_hash && heights@[h].header == hv[a];
                    assert(0 <= a < i + 1 && hv[a].height == h && heights@[h].block_hash
                        == hv[a].block_hash && heights@[h].header == hv[a]);
                }
            }
        }
        i += 1;
    }

    // collect the heights of switch blocks that an upgrade superseded
    let mut before: Vec<u64> = Vec::new();
    let mut i2: usize = 0;
    while i2 < n
        invariant
            forall|a: int| 0 <= a < headers@.len() ==> (#[trigger] headers@[a]).wf(),
            hv == header_views(headers@),
            i2 <= n,
            n == headers@.len(),
            forall|h: u64| #[trigger] before@.contains(h) ==> before_upgrade_height(hv, h),
            forall|a: int|
                0 <= a < i2 && is_before_upgrade_at(hv, a) ==> before@.contains(
                    (#[trigger] hv[a]).height,
                ),
        decreases n - i2,
    {
        let header = &headers[i2];
        proof {
            assert(hv[i2 as int] == header@);
        }
        if header.is_switch_block {
            let highest = version_max_height(headers, header.protocol_version, header.height);
            let superseded = has_later_version(headers, header.protocol_version);
            if highest && superseded {
                proof {
                    assert(is_before_upgrade_at(hv, i2 as int));
                    assert(before_upgrade_height(hv, header@.height)) by {
                        assert(hv[i2 as int].is_switch_block && hv[i2 as int].height
                            == header@.height);
                    }
                }
                let ghost before_pre = before@;
                before.push(header.height);
                proof {
                    assert forall|a: int|
                        0 <= a < i2 + 1 && is_before_upgrade_at(hv, a) implies before@.contains(
                        (#[trigger] hv[a]).height,
                    ) by {
                        if a < i2 {
                            assert(before_pre.contains(hv[a].height));
                            let b = choose|b: int|
                                0 <= b < before_pre.len() && before_pre[b] == hv[a].height;
                            assert(before@[b] == hv[a].height);
                        } else {
                            assert(before@[before@.len() - 1] == hv[a].height);
                        }
                    }
                    assert forall|h: u64| #[trigger] before@.contains(h)
                        implies before_upgrade_height(hv, h) by {
                        let b = choose|b: int| 0 <= b < before@.len() && before@[b] == h;
                        if b < before_pre.len() {
                            assert(before_pre[b] == h);
                            assert(before_pre.contains(h));
                        } else {
                            assert(h == header@.height);
                        }
                    }
                }
            } else {
                proof {
                    assert(!is_before_upgrade_at(hv, i2 as int));
                }
            }
        }
        i2 += 1;
    }
    proof {
        assert forall|h: u64| before_upgrade_height(hv, h) implies before@.contains(h) by {
            let a = choose|a: int|
                #![trigger hv[a]]
                {
                    &&& 0 <= a < hv.len()
                    &&& hv[a].is_switch_block
                    &&& hv[a].height == h
                    &&& forall|j: int|
                        0 <= j < hv.len() && (#[trigger] hv[j]).is_switch_block
                            && hv[j].protocol_version == hv[a].protocol_version ==> hv[j].height
                            <= h
                    &&& exists|j: int|
                        0 <= j < hv.len() && (#[trigger] hv[j]).is_switch_block && version_lt(
                            hv[a].protocol_version,
                            hv[j].protocol_version,
                        )
                };
            assert(is_before_upgrade_at(hv, a));
        }
    }
    Ok(Indices { heights, switch_blocks, switch_blocks_before_upgrade: before })
}

/// The header at position `a` is a switch block whose height tops its
/// protocol version, while a later version supersedes that version.
pub open spec fn is_before_upgrade_at(headers: Seq<HeaderV>, a: int) -> bool {
    &&& 0 <= a < headers.len()
    &&& headers[a].is_switch_block
    &&& forall|j: int|
        0 <= j < headers.len() && (#[trigger] headers[j]).is_switch_block
            && headers[j].protocol_version == headers[a].protocol_version ==> headers[j].height
            <= headers[a].height
    &&& exists|j: int|
        0 <= j < headers.len() && (#[trigger] headers[j]).is_switch_block && version_lt(
            headers[a].protocol_version,
            headers[j].protocol_version,
        )
}

/// No scanned switch block of the same protocol version stands higher than
/// `height`.
fn version_max_height(headers: &Vec<BlockHeader>, version: crate::block::ProtocolVersion, height: u64) -> (r:
    bool)
    ensures
        r == forall|j: int|
            0 <= j < header_views(headers@).len() && (#[trigger] header_views(
                headers@,
            )[j]).is_switch_block && header_views(headers@)[j].protocol_version == version
                ==> header_views(headers@)[j].height <= height,
{
    let ghost hv = header_views(headers@);
    let n = headers.len();
    let mut j: usize = 0;
    while j < n
        invariant
            hv == header_views(headers@),
            j <= n,
            n == headers@.len(),
            forall|b: int|
                0 <= b < j && (#[trigger] hv[b]).is_switch_block && hv[b].protocol_version
                    == version ==> hv[b].height <= height,
        decreases n - j,
    {
        let h = &headers[j];
        proof {
            assert(hv[j as int] == h@);
        }
        if h.is_switch_block && h.protocol_version.major == version.major
            && h.protocol_version.minor == version.minor && h.protocol_version.patch
            == version.patch && h.height > height {
            proof {
                assert(hv[j as int].is_switch_block && hv[j as int].protocol_version == version
                    && hv[j as int].height > height);
            }
            return false;
        }
        j += 1;
    }
    true
}

/// Some scanned switch block carries a strictly later protocol version.
fn has_later_version(headers: &Vec<BlockHeader>, version: crate::block::ProtocolVersion) -> (r:
    bool)
    ensures
        r == exists|j: int|
            0 <= j < header_views(headers@).len() && (#[trigger] header_views(
                headers@,
            )[j]).is_switch_block && version_lt(
                version,
                header_views(headers@)[j].protocol_version,
            ),
{
    let ghost hv = header_views(headers@);
    let n = headers.len();
    let mut j: usize = 0;
    while j < n
        invariant
            hv == header_views(headers@),
            j <= n,
            n == headers@.len(),
            forall|b: int|
                0 <= b < j ==> !((#[trigger] hv[b]).is_switch_block && version_lt(
                    version,
                    hv[b].protocol_version,
                )),
        decreases n - j,
    {
        let h = &headers[j];
        proof {
            assert(hv[j as int] == h@);
        }
        if h.is_switch_block && version.lt(&h.protocol_version) {
            proof {
                assert(hv[j as int].is_switch_block && version_lt(
                    version,
                    hv[j as int].protocol_version,
                ));
            }
            return true;
        }
        j += 1;
    }
    false
}

} // verus!
