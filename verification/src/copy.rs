//! The reachability copy engine: walks the content-addressed trie from a
//! root digest and copies exactly its transitive closure into a destination
//! store, deduplicating against content already present.

use vstd::prelude::*;

use crate::digest::Digest;
use crate::maps::{
    digest_keys_unique, lemma_digest_map_entry_index, lemma_digest_map_of_dom, DigestMap,
    DigestSet,
};
use crate::trie::{child_digests, children_of, clone_node, NodeV, TrieNode};

verus! {

/// Failure of the copy engine.
#[derive(Debug)]
pub enum CopyError {
    /// A digest reachable from the requested root, the root itself
    /// included, was found neither in the source nor in the destination.
    MissingTrieNode(Digest),
}

/// There is a pointer from the node stored under `a` to the digest `b`.
pub open spec fn edge(store: Map<Seq<u8>, NodeV>, a: Seq<u8>, b: Seq<u8>) -> bool {
    store.dom().contains(a) && children_of(store[a]).contains(b)
}

/// `p` is a chain of pointers in `store` none of whose nodes, except
/// possibly the endpoint, lies in `avoid`.
pub open spec fn is_live_path(
    store: Map<Seq<u8>, NodeV>,
    avoid: Set<Seq<u8>>,
    p: Seq<Seq<u8>>,
) -> bool {
    forall|i: int|
        0 <= i < p.len() - 1 ==> edge(store, #[trigger] p[i], p[i + 1]) && !avoid.contains(p[i])
}

/// The digest `d` lies on the frontier the engine must visit: some pointer
/// chain leads from `root` to `d` without passing through a node already in
/// `avoid`. The root itself is always on the frontier.
pub open spec fn needed(
    store: Map<Seq<u8>, NodeV>,
    avoid: Set<Seq<u8>>,
    root: Seq<u8>,
    d: Seq<u8>,
) -> bool {
    exists|p: Seq<Seq<u8>>|
        #![trigger is_live_path(store, avoid, p)]
        p.len() >= 1 && p[0] == root && p.last() == d && is_live_path(store, avoid, p)
}

/// Plain reachability: a pointer chain leads from `root` to `d`.
pub open spec fn reachable(store: Map<Seq<u8>, NodeV>, root: Seq<u8>, d: Seq<u8>) -> bool {
    needed(store, Set::empty(), root, d)
}

/// The transitive closure of `root`: the root and every digest reachable
/// from it.
pub open spec fn closure(store: Map<Seq<u8>, NodeV>, root: Seq<u8>) -> Set<Seq<u8>> {
    Set::new(|d: Seq<u8>| reachable(store, root, d))
}

/// The digests the engine must visit, as a set.
pub open spec fn needed_set(
    store: Map<Seq<u8>, NodeV>,
    avoid: Set<Seq<u8>>,
    root: Seq<u8>,
) -> Set<Seq<u8>> {
    Set::new(|d: Seq<u8>| needed(store, avoid, root, d))
}

/// A well-formed store holds every digest that one of its nodes points to:
/// the closure invariant of a content-addressed store.
pub open spec fn store_closed(store: Map<Seq<u8>, NodeV>) -> bool {
    forall|a: Seq<u8>, c: Seq<u8>|
        store.dom().contains(a) && #[trigger] children_of(store[a]).contains(c)
            ==> store.dom().contains(c)
}

/// Two stores never disagree on a digest both hold. Content addressing
/// grants this: a digest determines its node's bytes.
pub open spec fn stores_agree(a: Map<Seq<u8>, NodeV>, b: Map<Seq<u8>, NodeV>) -> bool {
    forall|d: Seq<u8>|
        a.dom().contains(d) && b.dom().contains(d) ==> a[d] == #[trigger] b[d]
}

/// All digests that nodes of the listed entries point to, in entry order.
pub open spec fn all_child_digests(entries: Seq<(Digest, TrieNode)>) -> Seq<Seq<u8>>
    decreases entries.len(),
{
    if entries.len() == 0 {
        Seq::empty()
    } else {
        all_child_digests(entries.drop_last()) + children_of(entries.last().1@)
    }
}

proof fn lemma_all_child_digests_member(entries: Seq<(Digest, TrieNode)>, i: int, c: Seq<u8>)
    requires
        0 <= i < entries.len(),
        children_of(entries[i].1@).contains(c),
    ensures
        all_child_digests(entries).contains(c),
    decreases entries.len(),
{
    let whole = all_child_digests(entries);
    let pre = all_child_digests(entries.drop_last());
    if i == entries.len() - 1 {
        let k = choose|k: int|
            0 <= k < children_of(entries[i].1@).len() && children_of(entries[i].1@)[k] == c;
        assert(whole[pre.len() + k] == c);
    } else {
        assert(entries.drop_last()[i] == entries[i]);
        lemma_all_child_digests_member(entries.drop_last(), i, c);
        let k = choose|k: int| 0 <= k < pre.len() && pre[k] == c;
        assert(whole[k] == c);
    }
}

/// Extending a live path by one pointer keeps it live when its endpoint is
/// absent from `avoid`.
proof fn lemma_needed_step(
    store: Map<Seq<u8>, NodeV>,
    avoid: Set<Seq<u8>>,
    root: Seq<u8>,
    d: Seq<u8>,
    c: Seq<u8>,
)
    requires
        needed(store, avoid, root, d),
        !avoid.contains(d),
        store.dom().contains(d),
        children_of(store[d]).contains(c),
    ensures
        needed(store, avoid, root, c),
{
    let p = choose|p: Seq<Seq<u8>>|
        #![trigger is_live_path(store, avoid, p)]
        p.len() >= 1 && p[0] == root && p.last() == d && is_live_path(store, avoid, p);
    let q = p.push(c);
    assert(q.last() == c);
    assert forall|i: int| 0 <= i < q.len() - 1 implies edge(store, #[trigger] q[i], q[i + 1])
        && !avoid.contains(q[i]) by {
        if i < p.len() - 1 {
            assert(q[i] == p[i] && q[i + 1] == p[i + 1]);
        } else {
            assert(q[i] == p.last() && q[i + 1] == c);
        }
    }
    assert(is_live_path(store, avoid, q));
}

/// The map `base` with the first `i` staged entries written over it.
pub open spec fn apply_prefix(
    base: Map<Seq<u8>, NodeV>,
    s: Seq<(Digest, TrieNode)>,
    i: int,
) -> Map<Seq<u8>, NodeV>
    decreases i,
{
    if i <= 0 {
        base
    } else {
        apply_prefix(base, s, i - 1).insert(s[i - 1].0@, s[i - 1].1@)
    }
}

proof fn lemma_apply_prefix_facts(base: Map<Seq<u8>, NodeV>, s: Seq<(Digest, TrieNode)>, i: int)
    requires
        0 <= i <= s.len(),
    ensures
        forall|d: Seq<u8>|
            apply_prefix(base, s, i).dom().contains(d) <==> base.dom().contains(d) || exists|j: int|
                0 <= j < i && #[trigger] s[j].0@ == d,
        forall|d: Seq<u8>|
            #![trigger apply_prefix(base, s, i)[d]]
            apply_prefix(base, s, i).dom().contains(d) ==> ((exists|j: int|
                0 <= j < i && #[trigger] s[j].0@ == d && apply_prefix(base, s, i)[d] == s[j].1@)
                || ((forall|j: int| 0 <= j < i ==> #[trigger] s[j].0@ != d) && base.dom().contains(
                d,
            ) && apply_prefix(base, s, i)[d] == base[d])),
    decreases i,
{
    if i > 0 {
        lemma_apply_prefix_facts(base, s, i - 1);
        let m0 = apply_prefix(base, s, i - 1);
        let m1 = apply_prefix(base, s, i);
        assert(m1 == m0.insert(s[i - 1].0@, s[i - 1].1@));
        assert forall|d: Seq<u8>| m1.dom().contains(d) implies base.dom().contains(d) || exists|
            j: int,
        | 0 <= j < i && #[trigger] s[j].0@ == d by {
            if d == s[i - 1].0@ {
                assert(s[i - 1].0@ == d);
            } else {
                assert(m0.dom().contains(d));
            }
        }
        assert forall|d: Seq<u8>| (base.dom().contains(d) || exists|j: int|
            0 <= j < i && #[trigger] s[j].0@ == d) implies m1.dom().contains(d) by {
            if !base.dom().contains(d) {
                let j = choose|j: int| 0 <= j < i && #[trigger] s[j].0@ == d;
                if j < i - 1 {
                    assert(m0.dom().contains(d));
                }
            }
        }
        assert forall|d: Seq<u8>| #![trigger m1[d]] m1.dom().contains(d) implies ((exists|j: int|
            0 <= j < i && #[trigger] s[j].0@ == d && m1[d] == s[j].1@) || ((forall|j: int|
            0 <= j < i ==> #[trigger] s[j].0@ != d) && base.dom().contains(d) && m1[d]
            == base[d])) by {
            if d == s[i - 1].0@ {
                assert(s[i - 1].0@ == d && m1[d] == s[i - 1].1@);
            } else {
                assert(m0.dom().contains(d));
                assert(m1[d] == m0[d]);
                if exists|j: int| 0 <= j < i - 1 && #[trigger] s[j].0@ == d && m0[d] == s[j].1@ {
                    let j = choose|j: int|
                        0 <= j < i - 1 && #[trigger] s[j].0@ == d && m0[d] == s[j].1@;
                    assert(s[j].0@ == d && m1[d] == s[j].1@);
                }
            }
        }
    }
}

/// Copies the node under `root` and its full transitive closure from
/// `source` into `destination`.
///
/// The engine keeps a work list of digests still to visit and a set of
/// digests already seen, so that a node reachable through several parents
/// is handled once. A digest already present in the destination is treated
/// as the head of an already-copied subtree and is not descended into; the
/// destination's closure invariant justifies the pruning. Nodes are staged
/// during the walk and written at its end, so a failed call leaves the
/// destination unchanged.
///
/// On success the destination holds its old content plus exactly the
/// digests the walk owed it — with an empty destination, exactly the
/// closure of `root` — each byte-identical to the source's node. It fails
/// with `MissingTrieNode` exactly when some digest on the unpruned frontier
/// is in neither store.
pub fn copy_state_root(
    root: &Digest,
    source: &DigestMap<TrieNode>,
    destination: &mut DigestMap<TrieNode>,
) -> (r: Result<(), CopyError>)
    requires
        source.wf(),
        old(destination).wf(),
        stores_agree(source@, old(destination)@),
        store_closed(old(destination)@),
    ensures
        final(destination).wf(),
        match r {
            Ok(()) => {
                &&& forall|d: Seq<u8>|
                    #[trigger] needed(source@, old(destination)@.dom(), root@, d)
                        ==> source@.dom().contains(d) || old(destination)@.dom().contains(d)
                &&& final(destination)@.dom() =~= old(destination)@.dom() + needed_set(
                    source@,
                    old(destination)@.dom(),
                    root@,
                )
                &&& forall|d: Seq<u8>|
                    final(destination)@.dom().contains(d) ==> final(destination)@[d] == if old(
                        destination,
                    )@.dom().contains(d) {
                        old(destination)@[d]
                    } else {
                        source@[d]
                    }
                &&& store_closed(final(destination)@)
                &&& stores_agree(source@, final(destination)@)
            },
            Err(CopyError::MissingTrieNode(m)) => {
                &&& *final(destination) == *old(destination)
                &&& needed(source@, old(destination)@.dom(), root@, m@)
                &&& !source@.dom().contains(m@)
                &&& !old(destination)@.dom().contains(m@)
            },
        },
{
    let ghost src = source@;
    let ghost dest0 = old(destination)@;
    let ghost avoid = old(destination)@.dom();
    let ghost cands = seq![root@] + all_child_digests(source.entries@);

    let mut seen = DigestSet::new();
    let mut pending: Vec<Digest> = Vec::new();
    let mut staged: Vec<(Digest, TrieNode)> = Vec::new();

    seen.insert(*root);
    pending.push(*root);

    proof {
        broadcast use vstd::seq_lib::seq_to_set_is_finite;

        assert(cands[0] == root@);
        assert(seen@ =~= Set::<Seq<u8>>::empty().insert(root@));
        assert(needed(src, avoid, root@, root@)) by {
            let p = seq![root@];
            assert(p.last() == root@);
            assert(is_live_path(src, avoid, p));
        }
        assert(pending@[0]@ == root@);
    }

    while pending.len() > 0
        invariant
            source.wf(),
            destination.wf(),
            *destination == *old(destination),
            src == source@,
            dest0 == destination@,
            avoid == dest0.dom(),
            cands == seq![root@] + all_child_digests(source.entries@),
            seen.wf(),
            seen@.subset_of(cands.to_set()),
            seen.items@.len() == seen@.len(),
            seen@.contains(root@),
            // every digest taken into the walk is owed to the destination
            forall|d: Seq<u8>| #[trigger] seen@.contains(d) ==> needed(src, avoid, root@, d),
            // the work list holds only seen digests, each once
            forall|i: int| 0 <= i < pending@.len() ==> seen@.contains(#[trigger] pending@[i]@),
            forall|i: int, j: int|
                0 <= i < j < pending@.len() ==> pending@[i]@ != pending@[j]@,
            // staged entries copy source nodes not present in the destination
            forall|i: int|
                0 <= i < staged@.len() ==> {
                    &&& seen@.contains(#[trigger] staged@[i].0@)
                    &&& src.dom().contains(staged@[i].0@)
                    &&& staged@[i].1@ == src[staged@[i].0@]
                    &&& !avoid.contains(staged@[i].0@)
                },
            digest_keys_unique(staged@),
            // a staged digest is done: it never waits in the work list
            forall|i: int, j: int|
                0 <= i < staged@.len() && 0 <= j < pending@.len() ==> staged@[i].0@
                    != pending@[j]@,
            // a seen digest waits in the work list, was skipped as already
            // present, or is staged
            forall|d: Seq<u8>|
                seen@.contains(d) ==> (exists|j: int|
                    0 <= j < pending@.len() && #[trigger] pending@[j]@ == d) || avoid.contains(d)
                    || (exists|i: int| 0 <= i < staged@.len() && #[trigger] staged@[i].0@ == d),
            // a staged node's children are all seen
            forall|i: int, c: Seq<u8>|
                0 <= i < staged@.len() && #[trigger] children_of(staged@[i].1@).contains(c)
                    ==> seen@.contains(c),
        decreases cands.to_set().len() - seen.items@.len(), pending@.len(),
    {
        proof {
            broadcast use vstd::seq_lib::seq_to_set_is_finite;

            seen.lemma_len();
            vstd::set_lib::lemma_len_subset(seen@, cands.to_set());
        }
        let ghost pend0 = pending@;
        let popped = pending.pop();
        match popped {
            None => {
                proof {
                    assert(false);
                }
            },
            Some(d) => {
                let ghost pend1 = pending@;
                proof {
                    assert(pend0 =~= pend1.push(d));
                    assert(pend0[pend0.len() - 1]@ == d@);
                    assert(seen@.contains(d@));
                    assert forall|j: int| 0 <= j < pend1.len() implies pend1[j]@ != d@ by {
                        assert(pend0[j] == pend1[j]);
                        assert(pend0[j]@ != pend0[pend0.len() - 1]@);
                    }
                    assert forall|i: int| 0 <= i < staged@.len() implies staged@[i].0@ != d@ by {
                        assert(staged@[i].0@ != pend0[pend0.len() - 1]@);
                    }
                    assert forall|x: Seq<u8>| seen@.contains(x) && x != d@ implies (exists|j: int|
                        0 <= j < pend1.len() && #[trigger] pend1[j]@ == x) || avoid.contains(x)
                        || (exists|i: int|
                        0 <= i < staged@.len() && #[trigger] staged@[i].0@ == x) by {
                        if exists|j: int| 0 <= j < pend0.len() && #[trigger] pend0[j]@ == x {
                            let j = choose|j: int|
                                0 <= j < pend0.len() && #[trigger] pend0[j]@ == x;
                            assert(j < pend0.len() - 1);
                            assert(pend1[j]@ == x);
                        }
                    }
                }
                if destination.contains_key(&d) {
                    proof {
                        assert forall|x: Seq<u8>| seen@.contains(x) implies (exists|j: int|
                            0 <= j < pending@.len() && #[trigger] pending@[j]@ == x)
                            || avoid.contains(x) || (exists|i: int|
                            0 <= i < staged@.len() && #[trigger] staged@[i].0@ == x) by {
                            if x == d@ {
                                assert(avoid.contains(x));
                            }
                        }
                    }
                } else {
                    match source.get(&d) {
                        None => {
                            proof {
                                lemma_digest_map_of_dom(destination.entries@);
                            }
                            return Err(CopyError::MissingTrieNode(d));
                        },
                        Some(node) => {
                            let kids = child_digests(node);
                            let nkids = kids.len();
                            let ghost seen_before = seen@;
                            let ghost n_seen0 = seen.items@.len();
                            let mut k: usize = 0;
                            while k < nkids
                                invariant
                                    source.wf(),
                                    src == source@,
                                    k <= nkids,
                                    nkids == kids@.len(),
                                    kids@.map_values(|x: Digest| x@) == children_of(node@),
                                    node@ == src[d@],
                                    src.dom().contains(d@),
                                    !avoid.contains(d@),
                                    needed(src, avoid, root@, d@),
                                    seen@.contains(d@),
                                    pending@.len() + n_seen0 == pend1.len()
                                        + seen.items@.len(),
                                    n_seen0 <= seen.items@.len(),
                                    cands == seq![root@] + all_child_digests(source.entries@),
                                    seen.wf(),
                                    seen@.subset_of(cands.to_set()),
                                    seen.items@.len() == seen@.len(),
                                    seen_before.subset_of(seen@),
                                    seen@.contains(root@),
                                    forall|x: Seq<u8>|
                                        #[trigger] seen@.contains(x) ==> needed(
                                            src,
                                            avoid,
                                            root@,
                                            x,
                                        ),
                                    forall|i: int|
                                        0 <= i < pending@.len() ==> seen@.contains(
                                            #[trigger] pending@[i]@,
                                        ),
                                    forall|i: int, j: int|
                                        0 <= i < j < pending@.len() ==> pending@[i]@
                                            != pending@[j]@,
                                    forall|i: int|
                                        0 <= i < staged@.len() ==> {
                                            &&& seen@.contains(#[trigger] staged@[i].0@)
                                            &&& src.dom().contains(staged@[i].0@)
                                            &&& staged@[i].1@ == src[staged@[i].0@]
                                            &&& !avoid.contains(staged@[i].0@)
                                        },
                                    digest_keys_unique(staged@),
                                    forall|i: int, j: int|
                                        0 <= i < staged@.len() && 0 <= j < pending@.len()
                                            ==> staged@[i].0@ != pending@[j]@,
                                    forall|i: int| 0 <= i < staged@.len() ==> staged@[i].0@ != d@,
                                    forall|i: int| 0 <= i < pending@.len() ==> pending@[i]@ != d@,
                                    forall|x: Seq<u8>|
                                        seen@.contains(x) && x != d@ ==> (exists|j: int|
                                            0 <= j < pending@.len() && #[trigger] pending@[j]@
                                                == x) || avoid.contains(x) || (exists|i: int|
                                            0 <= i < staged@.len() && #[trigger] staged@[i].0@
                                                == x),
                                    forall|i: int, c: Seq<u8>|
                                        0 <= i < staged@.len() && #[trigger] children_of(
                                            staged@[i].1@,
                                        ).contains(c) ==> seen@.contains(c),
                                    // children visited so far are seen
                                    forall|j: int| 0 <= j < k ==> seen@.contains(#[trigger] kids@[j]@),
                                decreases nkids - k,
                            {
                                let kid = kids[k];
                                proof {
                                    assert(kids@.map_values(|x: Digest| x@)[k as int] == kid@);
                                    assert(children_of(node@).contains(kid@));
                                    lemma_needed_step(src, avoid, root@, d@, kid@);
                                    let ei = lemma_digest_map_entry_index(source.entries@, d@);
                                    lemma_all_child_digests_member(source.entries@, ei, kid@);
                                    assert(cands[1 + choose|ci: int|
                                        0 <= ci < all_child_digests(source.entries@).len()
                                            && all_child_digests(source.entries@)[ci] == kid@]
                                        == kid@);
                                }
                                if !seen.contains(&kid) {
                                    let ghost seen_pre = seen@;
                                    let ghost pend_pre = pending@;
                                    seen.insert(kid);
                                    pending.push(kid);
                                    proof {
                                        seen.lemma_len();
                                        assert forall|x: Seq<u8>| seen@.contains(x) && x != d@
                                            implies (exists|j: int|
                                            0 <= j < pending@.len() && #[trigger] pending@[j]@
                                                == x) || avoid.contains(x) || (exists|i: int|
                                            0 <= i < staged@.len() && #[trigger] staged@[i].0@
                                                == x) by {
                                            if x == kid@ {
                                                assert(pending@[pending@.len() - 1]@ == x);
                                            } else {
                                                assert(seen_pre.contains(x));
                                                if exists|j: int|
                                                    0 <= j < pend_pre.len()
                                                        && #[trigger] pend_pre[j]@ == x {
                                                    let j = choose|j: int|
                                                        0 <= j < pend_pre.len() && pend_pre[j]@
                                                            == x;
                                                    assert(pending@[j]@ == x);
                                                }
                                            }
                                        }
                                    }
                                }
                                k += 1;
                            }
                            let copied = clone_node(node);
                            let ghost staged_pre = staged@;
                            staged.push((d, copied));
                            proof {
                                assert forall|x: Seq<u8>| seen@.contains(x) implies (exists|j: int|
                                    0 <= j < pending@.len() && #[trigger] pending@[j]@ == x)
                                    || avoid.contains(x) || (exists|i: int|
                                    0 <= i < staged@.len() && #[trigger] staged@[i].0@ == x) by {
                                    if x == d@ {
                                        assert(staged@[staged@.len() - 1].0@ == x);
                                    } else {
                                        if exists|i: int|
                                            0 <= i < staged_pre.len() && #[trigger] staged_pre[i].0@
                                                == x {
                                            let i = choose|i: int|
                                                0 <= i < staged_pre.len() && staged_pre[i].0@ == x;
                                            assert(staged@[i].0@ == x);
                                        }
                                    }
                                }
                                assert forall|i: int, c: Seq<u8>|
                                    0 <= i < staged@.len() && #[trigger] children_of(
                                        staged@[i].1@,
                                    ).contains(c) implies seen@.contains(c) by {
                                    if i == staged@.len() - 1 {
                                        let km = kids@.map_values(|x: Digest| x@);
                                        let j = choose|j: int| 0 <= j < km.len() && km[j] == c;
                                        assert(kids@[j]@ == c);
                                    }
                                }
                            }
                        },
                    }
                }
            },
        }
        proof {
            seen.lemma_len();
            broadcast use vstd::seq_lib::seq_to_set_is_finite;

            vstd::set_lib::lemma_len_subset(seen@, cands.to_set());
        }
    }

    // the walk is complete: write the staged closure in one batch
    let ghost staged_all = staged@;
    let nstaged = staged.len();
    let mut i: usize = 0;
    while i < nstaged
        invariant
            destination.wf(),
            i <= nstaged,
            nstaged == staged@.len(),
            staged@ == staged_all,
            destination@ == apply_prefix(dest0, staged_all, i as int),
        decreases nstaged - i,
    {
        let d = staged[i].0;
        let n2 = clone_node(&staged[i].1);
        destination.insert(d, n2);
        i += 1;
    }

    proof {
        lemma_apply_prefix_facts(dest0, staged_all, staged_all.len() as int);
        // every owed digest was seen
        assert forall|d: Seq<u8>| needed(src, avoid, root@, d) implies seen@.contains(d) by {
            let p = choose|p: Seq<Seq<u8>>|
                #![trigger is_live_path(src, avoid, p)]
                p.len() >= 1 && p[0] == root@ && p.last() == d && is_live_path(src, avoid, p);
            lemma_live_path_seen(src, avoid, seen@, staged_all, p);
        }
        assert forall|d: Seq<u8>| #[trigger] destination@.dom().contains(d)
            <==> dest0.dom().contains(d) || needed_set(src, avoid, root@).contains(d) by {
            if destination@.dom().contains(d) && !dest0.dom().contains(d) {
                let j = choose|j: int|
                    0 <= j < staged_all.len() && #[trigger] staged_all[j].0@ == d;
                assert(seen@.contains(d));
                assert(needed(src, avoid, root@, d));
            }
            if needed_set(src, avoid, root@).contains(d) && !dest0.dom().contains(d) {
                assert(needed(src, avoid, root@, d));
                assert(seen@.contains(d));
                assert(pending@.len() == 0);
                let j = choose|j: int|
                    0 <= j < staged_all.len() && #[trigger] staged_all[j].0@ == d;
                assert(destination@.dom().contains(d));
            }
        }
        assert(destination@.dom() =~= dest0.dom() + needed_set(src, avoid, root@));
        assert forall|d: Seq<u8>|
            destination@.dom().contains(d) && dest0.dom().contains(d) implies destination@[d]
            == dest0[d] by {
            if exists|j: int| 0 <= j < staged_all.len() && #[trigger] staged_all[j].0@ == d {
                let j = choose|j: int|
                    0 <= j < staged_all.len() && #[trigger] staged_all[j].0@ == d;
                assert(!avoid.contains(staged_all[j].0@));
            }
        }
        assert forall|d: Seq<u8>|
            destination@.dom().contains(d) && !dest0.dom().contains(d) implies destination@[d]
            == src[d] by {
            let j = choose|j: int| 0 <= j < staged_all.len() && #[trigger] staged_all[j].0@ == d;
            assert(staged_all[j].1@ == src[d]);
        }
        assert forall|a: Seq<u8>, c: Seq<u8>|
            destination@.dom().contains(a) && #[trigger] children_of(
                destination@[a],
            ).contains(c) implies destination@.dom().contains(c) by {
            if dest0.dom().contains(a) {
                assert(destination@[a] == dest0[a]);
                assert(children_of(dest0[a]).contains(c));
            } else {
                assert(destination@[a] == src[a]);
                assert(seen@.contains(a));
                let j = choose|j: int|
                    0 <= j < staged_all.len() && #[trigger] staged_all[j].0@ == a;
                assert(children_of(staged_all[j].1@).contains(c));
                assert(seen@.contains(c));
            }
        }
    }
    Ok(())
}

/// With an empty destination nothing is pruned: the engine owes exactly
/// the transitive closure of the root. Together with the contract of
/// [`copy_state_root`], a copy into an empty store yields exactly
/// `closure(store, root)`.
pub proof fn lemma_needed_into_empty(store: Map<Seq<u8>, NodeV>, root: Seq<u8>)
    ensures
        needed_set(store, Set::<Seq<u8>>::empty(), root) =~= closure(store, root),
{
}

/// Once the root is present in the destination, a copy from the same root
/// owes nothing but the root itself. Together with the contract of
/// [`copy_state_root`], a second call with the same root succeeds and
/// changes nothing: the copy is idempotent.
pub proof fn lemma_copy_idempotent(
    store: Map<Seq<u8>, NodeV>,
    avoid: Set<Seq<u8>>,
    root: Seq<u8>,
)
    requires
        avoid.contains(root),
    ensures
        needed_set(store, avoid, root) =~= Set::<Seq<u8>>::empty().insert(root),
{
    assert(needed(store, avoid, root, root)) by {
        let p = seq![root];
        assert(p.last() == root);
        assert(is_live_path(store, avoid, p));
    }
    assert forall|d: Seq<u8>| needed_set(store, avoid, root).contains(d) implies d == root by {
        let p = choose|p: Seq<Seq<u8>>|
            #![trigger is_live_path(store, avoid, p)]
            p.len() >= 1 && p[0] == root && p.last() == d && is_live_path(store, avoid, p);
        if p.len() >= 2 {
            assert(edge(store, p[0], p[1]) && !avoid.contains(p[0]));
        }
    }
}

/// Following the pointers of a closed store from a node it holds never
/// leaves the store.
proof fn lemma_path_stays_in_closed_store(
    src: Map<Seq<u8>, NodeV>,
    dest: Map<Seq<u8>, NodeV>,
    p: Seq<Seq<u8>>,
    j: int,
)
    requires
        store_closed(dest),
        stores_agree(src, dest),
        forall|i: int| 0 <= i < p.len() - 1 ==> edge(src, #[trigger] p[i], p[i + 1]),
        0 <= j < p.len(),
        dest.dom().contains(p[j]),
    ensures
        dest.dom().contains(p.last()),
    decreases p.len() - j,
{
    if j < p.len() - 1 {
        assert(edge(src, p[j], p[j + 1]));
        assert(dest[p[j]] == src[p[j]]);
        assert(children_of(dest[p[j]]).contains(p[j + 1]));
        lemma_path_stays_in_closed_store(src, dest, p, j + 1);
    }
}

/// An interrupted copy is resumable. Let the interrupted destination
/// `dest1` extend the original `dest0` only by digests the engine owed it,
/// with the source's nodes, such that `dest1` still satisfies the closure
/// invariant. Then a rerun of the engine against `dest1` owes exactly what
/// is still missing: the union of `dest1` and its frontier equals the
/// union of `dest0` and the original frontier, and every digest owed in
/// the rerun was owed in the original run — so the rerun succeeds whenever
/// the original run would have, and together with the contract of
/// [`copy_state_root`] it reaches the same final store.
pub proof fn lemma_copy_resumable(
    src: Map<Seq<u8>, NodeV>,
    dest0: Map<Seq<u8>, NodeV>,
    dest1: Map<Seq<u8>, NodeV>,
    root: Seq<u8>,
)
    requires
        store_closed(dest1),
        stores_agree(src, dest1),
        dest0.dom().subset_of(dest1.dom()),
        forall|d: Seq<u8>|
            #[trigger] dest1.dom().contains(d) && !dest0.dom().contains(d) ==> needed(
                src,
                dest0.dom(),
                root,
                d,
            ),
    ensures
        forall|d: Seq<u8>|
            #[trigger] needed(src, dest1.dom(), root, d) ==> needed(src, dest0.dom(), root, d),
        dest1.dom() + needed_set(src, dest1.dom(), root) =~= dest0.dom() + needed_set(
            src,
            dest0.dom(),
            root,
        ),
{
    assert forall|d: Seq<u8>| #[trigger] needed(src, dest1.dom(), root, d) implies needed(
        src,
        dest0.dom(),
        root,
        d,
    ) by {
        let p = choose|p: Seq<Seq<u8>>|
            #![trigger is_live_path(src, dest1.dom(), p)]
            p.len() >= 1 && p[0] == root && p.last() == d && is_live_path(src, dest1.dom(), p);
        assert forall|i: int| 0 <= i < p.len() - 1 implies edge(src, #[trigger] p[i], p[i + 1])
            && !dest0.dom().contains(p[i]) by {
            assert(edge(src, p[i], p[i + 1]) && !dest1.dom().contains(p[i]));
        }
        assert(is_live_path(src, dest0.dom(), p));
    }
    assert forall|d: Seq<u8>|
        (dest0.dom() + needed_set(src, dest0.dom(), root)).contains(d) implies (dest1.dom()
        + needed_set(src, dest1.dom(), root)).contains(d) by {
        if !dest0.dom().contains(d) && needed(src, dest0.dom(), root, d) {
            let p = choose|p: Seq<Seq<u8>>|
                #![trigger is_live_path(src, dest0.dom(), p)]
                p.len() >= 1 && p[0] == root && p.last() == d && is_live_path(src, dest0.dom(), p);
            if exists|i: int| 0 <= i < p.len() - 1 && dest1.dom().contains(#[trigger] p[i]) {
                let i = choose|i: int| 0 <= i < p.len() - 1 && dest1.dom().contains(#[trigger] p[i]);
                assert forall|m: int| 0 <= m < p.len() - 1 implies edge(
                    src,
                    #[trigger] p[m],
                    p[m + 1],
                ) by {
                    assert(edge(src, p[m], p[m + 1]) && !dest0.dom().contains(p[m]));
                }
                lemma_path_stays_in_closed_store(src, dest1, p, i);
            } else {
                assert forall|i: int| 0 <= i < p.len() - 1 implies edge(
                    src,
                    #[trigger] p[i],
                    p[i + 1],
                ) && !dest1.dom().contains(p[i]) by {
                    assert(edge(src, p[i], p[i + 1]) && !dest0.dom().contains(p[i]));
                }
                assert(is_live_path(src, dest1.dom(), p));
                assert(needed(src, dest1.dom(), root, d));
            }
        }
    }
}

/// Along a live path whose nodes are all seen-or-beyond, the endpoint is
/// seen: at the end of the walk every seen digest off the destination is
/// staged with all its children seen.
proof fn lemma_live_path_seen(
    src: Map<Seq<u8>, NodeV>,
    avoid: Set<Seq<u8>>,
    seen: Set<Seq<u8>>,
    staged: Seq<(Digest, TrieNode)>,
    p: Seq<Seq<u8>>,
)
    requires
        p.len() >= 1,
        is_live_path(src, avoid, p),
        seen.contains(p[0]),
        forall|d: Seq<u8>|
            seen.contains(d) ==> avoid.contains(d) || (exists|i: int|
                0 <= i < staged.len() && #[trigger] staged[i].0@ == d),
        forall|i: int|
            0 <= i < staged.len() ==> staged[i].1@ == src[#[trigger] staged[i].0@],
        forall|i: int, c: Seq<u8>|
            0 <= i < staged.len() && #[trigger] children_of(staged[i].1@).contains(c)
                ==> seen.contains(c),
    ensures
        seen.contains(p.last()),
    decreases p.len(),
{
    if p.len() == 1 {
    } else {
        let q = p.subrange(1, p.len() as int);
        assert(edge(src, p[0], p[1]) && !avoid.contains(p[0]));
        let i = choose|i: int| 0 <= i < staged.len() && #[trigger] staged[i].0@ == p[0];
        assert(staged[i].1@ == src[p[0]]);
        assert(children_of(staged[i].1@).contains(p[1]));
        assert(seen.contains(p[1]));
        assert(q[0] == p[1]);
        assert(q.last() == p.last());
        assert forall|j: int| 0 <= j < q.len() - 1 implies edge(src, #[trigger] q[j], q[j + 1])
            && !avoid.contains(q[j]) by {
            assert(q[j] == p[j + 1] && q[j + 1] == p[j + 2]);
        }
        lemma_live_path_seen(src, avoid, seen, staged, q);
    }
}

} // verus!
