//! Finality signature records and the weight-reduction engine.
//!
//! Weak finality holds when the signed weight strictly exceeds one third of
//! the era's total weight; strict (supermajority) finality when it exceeds
//! two thirds. Both thresholds are evaluated by exact integer
//! multiplication.

use vstd::prelude::*;

use crate::digest::Digest;
use crate::maps::{lemma_kv_map_of_dom, KvMap};
use crate::weights::{
    lemma_map_sum_insert, lemma_map_sum_member, lemma_map_sum_nonneg, lemma_map_sum_remove,
    lemma_map_sum_restrict, map_sum, WeightMap,
};

verus! {

/// The finality signatures recorded for one block: one proof per signing
/// validator.
pub struct BlockSignatures {
    pub block_hash: Digest,
    pub era_id: u64,
    pub proofs: KvMap<u64>,
}

/// The mathematical value of a signature record.
pub struct SigRecordV {
    pub block_hash: Seq<u8>,
    pub era_id: u64,
    pub proofs: Map<u64, u64>,
}

impl View for BlockSignatures {
    type V = SigRecordV;

    open spec fn view(&self) -> SigRecordV {
        SigRecordV { block_hash: self.block_hash@, era_id: self.era_id, proofs: self.proofs@ }
    }
}

impl BlockSignatures {
    pub open spec fn wf(&self) -> bool {
        self.proofs.wf()
    }

    pub fn new(block_hash: Digest, era_id: u64) -> (r: BlockSignatures)
        ensures
            r.wf(),
            r.block_hash@ == block_hash@,
            r.era_id == era_id,
            r.proofs@ =~= Map::<u64, u64>::empty(),
    {
        BlockSignatures { block_hash, era_id, proofs: KvMap::new() }
    }

    /// Records a validator's signature, replacing any earlier one.
    pub fn insert_signature(&mut self, validator: u64, signature: u64)
        requires
            old(self).wf(),
        ensures
            final(self).wf(),
            final(self).proofs@ =~= old(self).proofs@.insert(validator, signature),
            final(self).block_hash@ == old(self).block_hash@,
            final(self).era_id == old(self).era_id,
    {
        self.proofs.insert(validator, signature);
    }

    pub fn proofs(&self) -> (r: &KvMap<u64>)
        ensures
            r@ == self.proofs@,
    {
        &self.proofs
    }
}

/// The weight that the signers of `sigs` carry under `weights`; a signer
/// without a weight entry contributes nothing.
pub open spec fn signed_weight(sigs: Set<u64>, weights: Map<u64, u128>) -> int {
    map_sum(weights.restrict(sigs))
}

/// `a` is visited strictly before `b` when shedding weight: heavier first,
/// ties broken by the smaller validator identifier.
pub open spec fn signer_prio(a: (u64, u128), b: (u64, u128)) -> bool {
    a.1 > b.1 || (a.1 == b.1 && a.0 < b.0)
}

/// `s` lists exactly the signers of `sigs` that carry a weight, each with
/// its weight, in strictly descending priority order.
pub open spec fn is_sorted_signers(s: Seq<(u64, u128)>, sigs: Set<u64>, weights: Map<u64, u128>) -> bool {
    &&& forall|i: int, j: int| 0 <= i < j < s.len() ==> signer_prio(#[trigger] s[i], #[trigger] s[j])
    &&& forall|i: int|
        0 <= i < s.len() ==> sigs.contains(#[trigger] s[i].0) && weights.dom().contains(s[i].0)
            && s[i].1 == weights[s[i].0]
    &&& forall|k: u64|
        sigs.contains(k) && weights.dom().contains(k) ==> exists|i: int|
            0 <= i < s.len() && #[trigger] s[i].0 == k
}

/// At most one sequence lists a signer set in strictly descending
/// priority order.
pub proof fn lemma_sorted_signers_unique(
    s1: Seq<(u64, u128)>,
    s2: Seq<(u64, u128)>,
    sigs: Set<u64>,
    weights: Map<u64, u128>,
)
    requires
        is_sorted_signers(s1, sigs, weights),
        is_sorted_signers(s2, sigs, weights),
    ensures
        s1 =~= s2,
    decreases s1.len(),
{
    if s1.len() == 0 {
        if s2.len() > 0 {
            assert(sigs.contains(s2[0].0) && weights.dom().contains(s2[0].0));
            assert(exists|i: int| 0 <= i < s1.len() && #[trigger] s1[i].0 == s2[0].0);
        }
    } else {
        assert(sigs.contains(s1[0].0) && weights.dom().contains(s1[0].0));
        let j = choose|j: int| 0 <= j < s2.len() && #[trigger] s2[j].0 == s1[0].0;
        let i = choose|i: int| 0 <= i < s1.len() && #[trigger] s1[i].0 == s2[0].0;
        if s1[0].0 != s2[0].0 {
            assert(j != 0);
            assert(signer_prio(s2[0], s2[j]));
            assert(s2[j] == s1[0]);
            assert(i != 0);
            assert(signer_prio(s1[0], s1[i]));
            assert(s1[i] == s2[0]);
            assert(false);
        }
        assert(s1[0] == s2[0]);
        let k0 = s1[0].0;
        let t1 = s1.subrange(1, s1.len() as int);
        let t2 = s2.subrange(1, s2.len() as int);
        let sigs2 = sigs.remove(k0);
        assert forall|a: int| 0 <= a < s1.len() && a != 0 implies s1[a].0 != k0 by {
            assert(signer_prio(s1[0], s1[a]));
        }
        assert forall|a: int| 0 <= a < s2.len() && a != 0 implies s2[a].0 != k0 by {
            assert(signer_prio(s2[0], s2[a]));
        }
        assert(is_sorted_signers(t1, sigs2, weights)) by {
            assert forall|a: int| 0 <= a < t1.len() implies sigs2.contains(#[trigger] t1[a].0)
                && weights.dom().contains(t1[a].0) && t1[a].1 == weights[t1[a].0] by {
                assert(t1[a] == s1[a + 1]);
            }
            assert forall|k: u64| sigs2.contains(k) && weights.dom().contains(k) implies exists|
                a: int,
            | 0 <= a < t1.len() && #[trigger] t1[a].0 == k by {
                let b = choose|b: int| 0 <= b < s1.len() && #[trigger] s1[b].0 == k;
                assert(b != 0);
                assert(t1[b - 1].0 == k);
            }
        }
        assert(is_sorted_signers(t2, sigs2, weights)) by {
            assert forall|a: int| 0 <= a < t2.len() implies sigs2.contains(#[trigger] t2[a].0)
                && weights.dom().contains(t2[a].0) && t2[a].1 == weights[t2[a].0] by {
                assert(t2[a] == s2[a + 1]);
            }
            assert forall|k: u64| sigs2.contains(k) && weights.dom().contains(k) implies exists|
                a: int,
            | 0 <= a < t2.len() && #[trigger] t2[a].0 == k by {
                let b = choose|b: int| 0 <= b < s2.len() && #[trigger] s2[b].0 == k;
                assert(b != 0);
                assert(t2[b - 1].0 == k);
            }
        }
        lemma_sorted_signers_unique(t1, t2, sigs2, weights);
        assert forall|a: int| 0 <= a < s1.len() implies s1[a] == s2[a] by {
            if a > 0 {
                assert(t1[a - 1] == t2[a - 1]);
            }
        }
    }
}

/// The signers that carry a weight, in strictly descending priority order.
/// By [`lemma_sorted_signers_unique`] there is exactly one such listing.
pub open spec fn spec_sorted_signers(sigs: Set<u64>, weights: Map<u64, u128>) -> Seq<(u64, u128)> {
    choose|s: Seq<(u64, u128)>| is_sorted_signers(s, sigs, weights)
}

/// The set of signers the reduction pass removes, walking the sorted
/// listing front to back with running signed weight `signed` against the
/// fixed `total`: a signer is shed when weak finality survives the loss;
/// the walk stops as soon as strict finality is gone; it yields nothing
/// when the listing runs out first.
pub open spec fn greedy_removals(s: Seq<(u64, u128)>, signed: int, total: int) -> Option<Set<u64>>
    decreases s.len(),
{
    if 3 * signed <= 2 * total {
        Some(Set::empty())
    } else if s.len() == 0 {
        None
    } else {
        if 3 * (signed - s[0].1) > total {
            match greedy_removals(s.subrange(1, s.len() as int), signed - s[0].1, total) {
                Some(rm) => Some(rm.insert(s[0].0)),
                None => None,
            }
        } else {
            greedy_removals(s.subrange(1, s.len() as int), signed, total)
        }
    }
}

/// What the reduction engine does to one block's proofs under the given
/// weights: `None` when the record is left untouched and the call reports
/// failure; `Some(m)` when the call reports success and leaves proofs `m`.
/// A block already in the weak-but-not-strict band succeeds unchanged; one
/// below weak finality fails; one at or above strict finality is reduced
/// greedily, all or nothing.
pub open spec fn strip_outcome(proofs: Map<u64, u64>, weights: Map<u64, u128>) -> Option<
    Map<u64, u64>,
> {
    let total = map_sum(weights);
    let signed = signed_weight(proofs.dom(), weights);
    if 3 * signed <= total {
        None
    } else if 3 * signed <= 2 * total {
        Some(proofs)
    } else {
        match greedy_removals(spec_sorted_signers(proofs.dom(), weights), signed, total) {
            Some(rm) => Some(proofs.remove_keys(rm)),
            None => None,
        }
    }
}


/// True when `a` is visited strictly before `b`.
fn prio_exec(a: (u64, u128), b: (u64, u128)) -> (r: bool)
    ensures
        r == signer_prio(a, b),
{
    a.1 > b.1 || (a.1 == b.1 && a.0 < b.0)
}

/// Removes the fewest heaviest signers such that the remaining signed
/// weight keeps weak finality (`3 * signed > total`) while losing strict
/// finality (`3 * signed <= 2 * total`), walking the signers by descending
/// weight. When no such reduction exists, or the record is already in the
/// band, the record is left untouched. The reduction is all or nothing.
///
/// A `true` result always leaves the record in the band: the call never
/// reports success while the remaining signed weight sits at or below one
/// third, or above two thirds, of the total.
#[verifier::rlimit(100)]
pub fn strip_signatures(signatures: &mut BlockSignatures, weights: &WeightMap) -> (r: bool)
    requires
        old(signatures).wf(),
        weights.wf(),
    ensures
        final(signatures).wf(),
        final(signatures).block_hash@ == old(signatures).block_hash@,
        final(signatures).era_id == old(signatures).era_id,
        match strip_outcome(old(signatures).proofs@, weights@) {
            Some(m) => r && final(signatures).proofs@ =~= m,
            None => !r && *final(signatures) == *old(signatures),
        },
        r ==> 3 * signed_weight(final(signatures).proofs@.dom(), weights@) > map_sum(weights@),
        r ==> 3 * signed_weight(final(signatures).proofs@.dom(), weights@) <= 2 * map_sum(
            weights@,
        ),
{
    let ghost proofs0 = signatures.proofs@;
    let ghost w = weights@;
    let total: u128 = weights.total_weight();
    proof {
        weights.entries.lemma_len();
        signatures.proofs.lemma_len();
        assert(3 * (u128::MAX as int / 3) <= u128::MAX as int) by {
            vstd::arithmetic::div_mod::lemma_fundamental_div_mod(u128::MAX as int, 3);
            vstd::arithmetic::div_mod::lemma_mod_bound(u128::MAX as int, 3);
        }
        lemma_map_sum_nonneg(w);
    }

    // gather the signers that carry weight, and their signed weight
    let pn = signatures.proofs.len();
    let mut cands: Vec<(u64, u128)> = Vec::new();
    let mut signed: u128 = 0;
    let ghost mut covered: Set<u64> = Set::empty();
    proof {
        assert(w.restrict(covered).dom() =~= Set::<u64>::empty());
    }
    let mut pi: usize = 0;
    while pi < pn
        invariant
            signatures.proofs.wf(),
            signatures.proofs@ == proofs0,
            *signatures == *old(signatures),
            weights.wf(),
            w == weights@,
            w.dom().finite(),
            proofs0.dom().finite(),
            total == map_sum(w),
            pi <= pn,
            pn == signatures.proofs.entries@.len(),
            forall|k: u64|
                covered.contains(k) <==> exists|j: int|
                    0 <= j < pi && #[trigger] signatures.proofs.entries@[j].0 == k,
            signed == map_sum(w.restrict(covered)),
            signed <= total,
            forall|a: int, b: int| 0 <= a < b < cands@.len() ==> cands@[a].0 != cands@[b].0,
            forall|a: int|
                0 <= a < cands@.len() ==> {
                    &&& w.dom().contains(#[trigger] cands@[a].0)
                    &&& cands@[a].1 == w[cands@[a].0]
                    &&& proofs0.dom().contains(cands@[a].0)
                },
            forall|j: int|
                0 <= j < pi && w.dom().contains(#[trigger] signatures.proofs.entries@[j].0)
                    ==> exists|a: int|
                    0 <= a < cands@.len() && #[trigger] cands@[a].0
                        == signatures.proofs.entries@[j].0,
            forall|a: int|
                #![trigger cands@[a]]
                0 <= a < cands@.len() ==> exists|j: int|
                    0 <= j < pi && #[trigger] signatures.proofs.entries@[j].0 == cands@[a].0,
        decreases pn - pi,
    {
        let k = signatures.proofs.entries[pi].0;
        proof {
            lemma_kv_map_of_dom(signatures.proofs.entries@);
            assert(!covered.contains(k));
        }
        let ghost cands_pre = cands@;
        match weights.get(k) {
            Some(wk) => {
                let wk = *wk;
                proof {
                    assert(w.restrict(covered.insert(k)) =~= w.restrict(covered).insert(k, w[k]));
                    assert(w.restrict(covered).dom() =~= w.dom().intersect(covered));
                    vstd::set_lib::lemma_len_subset(w.restrict(covered).dom(), w.dom());
                    lemma_map_sum_insert(w.restrict(covered), k, w[k]);
                    lemma_map_sum_restrict(w, covered.insert(k));
                }
                signed = signed + wk;
                cands.push((k, wk));
                proof {
                    assert forall|a: int| #![trigger cands@[a]] 0 <= a < cands@.len()
                        implies exists|j: int|
                        0 <= j < pi + 1 && #[trigger] signatures.proofs.entries@[j].0
                            == cands@[a].0 by {
                        if a < cands_pre.len() {
                            assert(cands@[a] == cands_pre[a]);
                            let j = choose|j: int|
                                0 <= j < pi && #[trigger] signatures.proofs.entries@[j].0
                                    == cands_pre[a].0;
                            assert(signatures.proofs.entries@[j].0 == cands@[a].0);
                        } else {
                            assert(signatures.proofs.entries@[pi as int].0 == cands@[a].0);
                        }
                    }
                    assert forall|a: int, b: int| 0 <= a < b < cands@.len() implies cands@[a].0
                        != cands@[b].0 by {
                        if b == cands@.len() - 1 {
                            let j = choose|j: int|
                                0 <= j < pi && #[trigger] signatures.proofs.entries@[j].0
                                    == cands_pre[a].0;
                        }
                    }
                    assert forall|j: int|
                        0 <= j < pi + 1 && w.dom().contains(
                            #[trigger] signatures.proofs.entries@[j].0,
                        ) implies exists|a: int|
                        0 <= a < cands@.len() && #[trigger] cands@[a].0
                            == signatures.proofs.entries@[j].0 by {
                        if j < pi {
                            let a = choose|a: int|
                                0 <= a < cands_pre.len() && #[trigger] cands_pre[a].0
                                    == signatures.proofs.entries@[j].0;
                            assert(cands@[a].0 == signatures.proofs.entries@[j].0);
                        } else {
                            assert(cands@[cands@.len() - 1].0 == signatures.proofs.entries@[j].0);
                        }
                    }
                }
            },
            None => {
                proof {
                    assert(w.restrict(covered.insert(k)) =~= w.restrict(covered));
                }
            },
        }
        proof {
            covered = covered.insert(k);
            assert forall|kk: u64| covered.contains(kk) implies exists|j: int|
                0 <= j < pi + 1 && #[trigger] signatures.proofs.entries@[j].0 == kk by {
                if kk == k {
                    assert(signatures.proofs.entries@[pi as int].0 == kk);
                }
            }
        }
        pi += 1;
    }
    proof {
        lemma_kv_map_of_dom(signatures.proofs.entries@);
        assert(covered =~= proofs0.dom());
        assert(signed == signed_weight(proofs0.dom(), w));
    }

    if !(3 * signed > total) {
        return false;
    }
    if !(3 * signed > 2 * total) {
        return true;
    }

    // sort the weighted signers by strictly descending priority
    let ghost cands0 = cands@;
    let ghost candset = proofs0.dom().intersect(w.dom());
    proof {
        broadcast use vstd::seq_lib::group_to_multiset_ensures;

        assert(w.restrict(proofs0.dom()) =~= w.restrict(candset));
    }
    let mut rest = cands;
    let mut sorted: Vec<(u64, u128)> = Vec::new();
    proof {
        assert(sorted@.to_multiset().add(rest@.to_multiset()) =~= cands0.to_multiset());
    }
    while rest.len() > 0
        invariant
            sorted@.to_multiset().add(rest@.to_multiset()) =~= cands0.to_multiset(),
            forall|a: int, b: int|
                0 <= a < b < sorted@.len() ==> signer_prio(#[trigger] sorted@[a], #[trigger] sorted@[b]),
            forall|a: int, b: int|
                0 <= a < sorted@.len() && 0 <= b < rest@.len() ==> signer_prio(
                    #[trigger] sorted@[a],
                    #[trigger] rest@[b],
                ),
            forall|a: int, b: int| 0 <= a < b < rest@.len() ==> rest@[a].0 != rest@[b].0,
            forall|a: int|
                0 <= a < rest@.len() ==> {
                    &&& w.dom().contains(#[trigger] rest@[a].0)
                    &&& rest@[a].1 == w[rest@[a].0]
                },
        decreases rest@.len(),
    {
        proof {
            broadcast use vstd::seq_lib::group_to_multiset_ensures;

        }
        let rn = rest.len();
        let mut m: usize = 0;
        let mut j: usize = 1;
        while j < rn
            invariant
                m < j,
                m < rn,
                1 <= j <= rn,
                rn == rest@.len(),
                rn > 0,
                forall|a: int, b: int| 0 <= a < b < rest@.len() ==> rest@[a].0 != rest@[b].0,
                forall|a: int|
                    0 <= a < rest@.len() ==> {
                        &&& w.dom().contains(#[trigger] rest@[a].0)
                        &&& rest@[a].1 == w[rest@[a].0]
                    },
                forall|b: int|
                    0 <= b < j && b != m ==> signer_prio(rest@[m as int], #[trigger] rest@[b]),
            decreases rn - j,
        {
            if prio_exec(rest[j], rest[m]) {
                proof {
                    assert forall|b: int| 0 <= b < j + 1 && b != j implies signer_prio(
                        rest@[j as int],
                        #[trigger] rest@[b],
                    ) by {
                        if b != m {
                            assert(signer_prio(rest@[m as int], rest@[b]));
                        }
                    }
                }
                m = j;
            } else {
                proof {
                    assert(m < j);
                    assert(rest@[m as int].0 != rest@[j as int].0);
                    assert(signer_prio(rest@[m as int], rest@[j as int]));
                }
            }
            j += 1;
        }
        let e = rest.remove(m);
        let ghost sorted_pre = sorted@;
        sorted.push(e);
        proof {
            broadcast use vstd::seq_lib::group_to_multiset_ensures;

            assert(sorted@.to_multiset().add(rest@.to_multiset()) =~= cands0.to_multiset());
        }
    }

    let ghost ss = sorted@;
    proof {
        broadcast use vstd::seq_lib::group_to_multiset_ensures;

        assert(rest@.to_multiset() =~= vstd::multiset::Multiset::<(u64, u128)>::empty());
        assert(ss.to_multiset() =~= cands0.to_multiset());
        assert(is_sorted_signers(ss, proofs0.dom(), w)) by {
            assert forall|a: int| 0 <= a < ss.len() implies proofs0.dom().contains(
                #[trigger] ss[a].0,
            ) && w.dom().contains(ss[a].0) && ss[a].1 == w[ss[a].0] by {
                assert(ss.to_multiset().contains(ss[a]));
                assert(cands0.contains(ss[a]));
                let c = choose|c: int| 0 <= c < cands0.len() && cands0[c] == ss[a];
                assert(cands0[c].0 == ss[a].0);
            }
            assert forall|k: u64| proofs0.dom().contains(k) && w.dom().contains(k) implies exists|
                a: int,
            | 0 <= a < ss.len() && #[trigger] ss[a].0 == k by {
                lemma_kv_map_of_dom(signatures.proofs.entries@);
                let j = choose|j: int|
                    0 <= j < signatures.proofs.entries@.len()
                        && #[trigger] signatures.proofs.entries@[j].0 == k;
                let a = choose|a: int| 0 <= a < cands0.len() && #[trigger] cands0[a].0 == k;
                assert(cands0.to_multiset().contains(cands0[a]));
                assert(ss.contains(cands0[a]));
                let b = choose|b: int| 0 <= b < ss.len() && ss[b] == cands0[a];
                assert(ss[b].0 == k);
            }
        }
        let picked = spec_sorted_signers(proofs0.dom(), w);
        assert(is_sorted_signers(picked, proofs0.dom(), w)) by {
            assert(is_sorted_signers(ss, proofs0.dom(), w));
        }
        lemma_sorted_signers_unique(ss, picked, proofs0.dom(), w);
    }

    // shed signers greedily, heaviest first, all or nothing
    let sn = sorted.len();
    let mut cur: u128 = signed;
    let mut removals: Vec<u64> = Vec::new();
    let ghost signed0 = signed as int;
    proof {
        assert(ss.subrange(0, ss.len() as int) =~= ss);
        assert(removals@.to_set() =~= Set::<u64>::empty());
        assert(candset.difference(removals@.to_set()) =~= proofs0.dom().intersect(w.dom()));
        assert(w.restrict(candset.difference(removals@.to_set())) =~= w.restrict(proofs0.dom()));
        match greedy_removals(ss, signed0, total as int) {
            Some(rm) => {
                assert(rm.union(removals@.to_set()) =~= rm);
            },
            None => {},
        }
    }
    let mut i: usize = 0;
    while i < sn
        invariant
            signatures.proofs.wf(),
            signatures.proofs@ == proofs0,
            *signatures == *old(signatures),
            signatures.block_hash@ == old(signatures).block_hash@,
            signatures.era_id == old(signatures).era_id,
            weights.wf(),
            w == weights@,
            w.dom().finite(),
            proofs0.dom().finite(),
            total == map_sum(w),
            i <= sn,
            sn == ss.len(),
            ss == sorted@,
            is_sorted_signers(ss, proofs0.dom(), w),
            ss == spec_sorted_signers(proofs0.dom(), w),
            candset == proofs0.dom().intersect(w.dom()),
            signed0 == signed_weight(proofs0.dom(), w),
            3 * signed0 > 2 * total,
            forall|a: int|
                #![trigger removals@[a]]
                0 <= a < removals@.len() ==> exists|b: int|
                    0 <= b < i && #[trigger] ss[b].0 == removals@[a],
            cur as int == map_sum(w.restrict(candset.difference(removals@.to_set()))),
            cur <= total,
            3 * cur > 2 * total,
            match greedy_removals(ss.subrange(i as int, ss.len() as int), cur as int, total as int) {
                Some(rm) => greedy_removals(ss, signed0, total as int) == Some(
                    rm.union(removals@.to_set()),
                ),
                None => greedy_removals(ss, signed0, total as int) is None,
            },
        decreases sn - i,
    {
        let ghost s_i = ss.subrange(i as int, ss.len() as int);
        let kw = sorted[i];
        let k = kw.0;
        let wk = kw.1;
        proof {
            assert(s_i[0] == ss[i as int]);
            assert(w.dom().contains(k) && wk == w[k] && proofs0.dom().contains(k));
            // the signer is still counted: distinct keys put it outside the removals
            assert forall|a: int, b: int| 0 <= a < b < ss.len() implies ss[a].0 != ss[b].0 by {
                assert(signer_prio(ss[a], ss[b]));
            }
            assert(!removals@.to_set().contains(k)) by {
                if removals@.to_set().contains(k) {
                    let a = choose|a: int| 0 <= a < removals@.len() && removals@[a] == k;
                    let b = choose|b: int| 0 <= b < i && #[trigger] ss[b].0 == removals@[a];
                    assert(ss[b].0 == ss[i as int].0);
                }
            }
            let live = candset.difference(removals@.to_set());
            assert(w.restrict(live).dom() =~= w.dom().intersect(live));
            vstd::set_lib::lemma_len_subset(w.restrict(live).dom(), w.dom());
            assert(w.restrict(live).dom().contains(k));
            assert(w.restrict(live)[k] == wk);
            lemma_map_sum_member(w.restrict(live), k);
        }
        let prospective = cur - wk;
        if 3 * prospective > total {
            let ghost rm_pre = removals@;
            removals.push(k);
            cur = prospective;
            proof {
                assert(removals@.to_set() =~= rm_pre.to_set().insert(k)) by {
                    assert forall|x: u64| removals@.to_set().contains(x) implies rm_pre.to_set().insert(
                        k,
                    ).contains(x) by {
                        let a = choose|a: int| 0 <= a < removals@.len() && removals@[a] == x;
                        if a < rm_pre.len() {
                            assert(rm_pre[a] == x);
                        }
                    }
                    assert forall|x: u64| rm_pre.to_set().insert(k).contains(x)
                        implies removals@.to_set().contains(x) by {
                        if x == k {
                            assert(removals@[removals@.len() - 1] == x);
                        } else {
                            let a = choose|a: int| 0 <= a < rm_pre.len() && rm_pre[a] == x;
                            assert(removals@[a] == x);
                        }
                    }
                }
                let live_pre = candset.difference(rm_pre.to_set());
                let live = candset.difference(removals@.to_set());
                assert(w.restrict(live_pre).dom() =~= w.dom().intersect(live_pre));
                vstd::set_lib::lemma_len_subset(w.restrict(live_pre).dom(), w.dom());
                assert(w.restrict(live) =~= w.restrict(live_pre).remove(k));
                lemma_map_sum_remove(w.restrict(live_pre), k);
                assert(s_i.subrange(1, s_i.len() as int) =~= ss.subrange(
                    i + 1 as int,
                    ss.len() as int,
                ));
                assert forall|a: int| #![trigger removals@[a]] 0 <= a < removals@.len()
                    implies exists|b: int| 0 <= b < i + 1 && #[trigger] ss[b].0
                    == removals@[a] by {
                    if a < rm_pre.len() {
                        let b = choose|b: int| 0 <= b < i && #[trigger] ss[b].0 == rm_pre[a];
                        assert(ss[b].0 == removals@[a]);
                    } else {
                        assert(ss[i as int].0 == removals@[a]);
                    }
                }
                match greedy_removals(
                    ss.subrange(i + 1 as int, ss.len() as int),
                    cur as int,
                    total as int,
                ) {
                    Some(rm) => {
                        assert(greedy_removals(s_i, cur as int + wk, total as int) == Some(
                            rm.insert(k),
                        ));
                        assert(rm.insert(k).union(rm_pre.to_set()) =~= rm.union(
                            removals@.to_set(),
                        ));
                    },
                    None => {},
                }
            }
            if 3 * cur <= 2 * total {
                // the band is reached: commit the removals
                proof {
                    let tail = ss.subrange(i + 1 as int, ss.len() as int);
                    assert(greedy_removals(tail, cur as int, total as int) == Some(
                        Set::<u64>::empty(),
                    ));
                    assert(Set::<u64>::empty().union(removals@.to_set()) =~= removals@.to_set());
                    assert(greedy_removals(ss, signed0, total as int) == Some(removals@.to_set()));
                }
                let ghost rmfull = removals@.to_set();
                let nr = removals.len();
                let mut ri: usize = 0;
                proof {
                    assert(signatures.proofs@ =~= proofs0.remove_keys(
                        removals@.subrange(0, 0).to_set(),
                    )) by {
                        assert(removals@.subrange(0, 0).to_set() =~= Set::<u64>::empty());
                    }
                }
                while ri < nr
                    invariant
                        signatures.proofs.wf(),
                        signatures.block_hash@ == old(signatures).block_hash@,
                        signatures.era_id == old(signatures).era_id,
                        ri <= nr,
                        nr == removals@.len(),
                        signatures.proofs@ =~= proofs0.remove_keys(
                            removals@.subrange(0, ri as int).to_set(),
                        ),
                    decreases nr - ri,
                {
                    let rk = removals[ri];
                    signatures.proofs.remove(rk);
                    proof {
                        let pre = removals@.subrange(0, ri as int);
                        let post = removals@.subrange(0, ri + 1 as int);
                        assert(post.to_set() =~= pre.to_set().insert(rk)) by {
                            assert forall|x: u64| post.to_set().contains(x) implies pre.to_set().insert(
                                rk,
                            ).contains(x) by {
                                let a = choose|a: int| 0 <= a < post.len() && post[a] == x;
                                if a < pre.len() {
                                    assert(pre[a] == x);
                                }
                            }
                            assert forall|x: u64| pre.to_set().insert(rk).contains(x)
                                implies post.to_set().contains(x) by {
                                if x == rk {
                                    assert(post[ri as int] == x);
                                } else {
                                    let a = choose|a: int| 0 <= a < pre.len() && pre[a] == x;
                                    assert(post[a] == x);
                                }
                            }
                        }
                        assert(proofs0.remove_keys(pre.to_set()).remove(rk) =~= proofs0.remove_keys(
                            post.to_set(),
                        ));
                    }
                    ri += 1;
                }
                proof {
                    assert(removals@.subrange(0, nr as int) =~= removals@);
                    assert(signatures.proofs@ =~= proofs0.remove_keys(rmfull));
                    // the committed record sits in the band
                    assert(proofs0.remove_keys(rmfull).dom() =~= proofs0.dom().difference(rmfull));
                    assert(w.restrict(proofs0.dom().difference(rmfull)) =~= w.restrict(
                        candset.difference(rmfull),
                    ));
                }
                return true;
            }
        } else {
            proof {
                assert(s_i.subrange(1, s_i.len() as int) =~= ss.subrange(
                    i + 1 as int,
                    ss.len() as int,
                ));
            }
        }
        i += 1;
    }
    proof {
        assert(ss.subrange(sn as int, ss.len() as int) =~= Seq::<(u64, u128)>::empty());
        assert(greedy_removals(ss, signed0, total as int) is None);
    }
    false
}

} // verus!
